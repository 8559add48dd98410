//! Word-count and report building over collected diff lines: grouping by
//! file pair, splitting added and removed lines into words, counting the
//! words an edit sequence adds, and the per-file report of added lines.

use vstd::prelude::*;

use crate::chars::chars_to_string;
use crate::chars::extend_str;
use crate::chars::rfind_char;
use crate::chars::str_lt;
use crate::chars::str_lt_exec;
use crate::chars::rindex_of_char;
use crate::chars::str_chars;
use crate::chars::subvec;
use crate::ident::join_with;
use crate::ident::lemma_join_with_push;

verus! {

/// One printed diff line, as plain values: the new file's path, the two
/// blob ids, the line's origin marker, and its text.
#[derive(Debug, Clone)]
pub struct DiffRec {
    pub path: String,
    pub old_id: String,
    pub new_id: String,
    pub origin: char,
    pub content: String,
}

/// The mathematical content of a `DiffRec`.
pub struct DiffRecV {
    pub path: Seq<char>,
    pub old_id: Seq<char>,
    pub new_id: Seq<char>,
    pub origin: char,
    pub content: Seq<char>,
}

impl View for DiffRec {
    type V = DiffRecV;

    open spec fn view(&self) -> DiffRecV {
        DiffRecV {
            path: self.path@,
            old_id: self.old_id@,
            new_id: self.new_id@,
            origin: self.origin,
            content: self.content@,
        }
    }
}

impl DiffRec {
    pub fn new(path: String, old_id: String, new_id: String, origin: char, content: String) -> (r:
        DiffRec)
        ensures
            r@ == (DiffRecV {
                path: path@,
                old_id: old_id@,
                new_id: new_id@,
                origin: origin,
                content: content@,
            }),
    {
        DiffRec { path, old_id, new_id, origin, content }
    }
}

/// The views of a sequence of records.
pub open spec fn rec_views(recs: Seq<DiffRec>) -> Seq<DiffRecV> {
    recs.map_values(|r: DiffRec| r@)
}

/// Whether a record counts: its file is not a metadata file, judged by the
/// path's final segment.
pub open spec fn countable(path: Seq<char>) -> bool {
    path.skip(rfind_char(path, '/') + 1) != "meta.toml"@
}

/// Decides `countable`.
fn countable_exec(path: &String) -> (r: bool)
    ensures
        r == countable(path@),
{
    let cs = str_chars(path.as_str());
    let n = cs.len();
    let start = match rindex_of_char(&cs, '/') {
        Some(i) => i + 1,
        None => 0,
    };
    let tail = subvec(&cs, start, n);
    proof {
        crate::chars::lemma_rfind_char(path@, '/');
        assert(tail@ =~= path@.skip(rfind_char(path@, '/') + 1));
    }
    let tail_s = chars_to_string(&tail);
    let meta_name: String = String::from_str("meta.toml");
    proof {
        reveal_strlit("meta.toml");
    }
    !(tail_s == meta_name)
}

// ---------------------------------------------------------------------------
// Words
// ---------------------------------------------------------------------------

/// The whitespace that separates words.
pub open spec fn is_ws(c: char) -> bool {
    c == ' ' || c == '\t' || c == '\n' || c == '\r'
}

/// The longest whitespace-free prefix.
pub open spec fn take_word(s: Seq<char>) -> Seq<char>
    decreases s.len(),
{
    if s.len() == 0 || is_ws(s[0]) {
        Seq::<char>::empty()
    } else {
        seq![s[0]] + take_word(s.skip(1))
    }
}

pub proof fn lemma_take_word(s: Seq<char>)
    ensures
        take_word(s).len() <= s.len(),
        take_word(s) == s.take(take_word(s).len() as int),
        forall|i: int| 0 <= i < take_word(s).len() ==> !is_ws(s[i]),
        take_word(s).len() < s.len() ==> is_ws(s[take_word(s).len() as int]),
        s.len() > 0 && !is_ws(s[0]) ==> take_word(s).len() >= 1,
    decreases s.len(),
{
    if s.len() == 0 || is_ws(s[0]) {
        assert(take_word(s) =~= s.take(0));
    } else {
        lemma_take_word(s.skip(1));
        let w = take_word(s);
        let t = take_word(s.skip(1));
        assert(w == seq![s[0]] + t);
        assert(w =~= s.take(w.len() as int)) by {
            assert forall|i: int| 0 <= i < w.len() implies w[i] == s[i] by {
                if i > 0 {
                    assert(w[i] == t[i - 1]);
                    assert(t[i - 1] == s.skip(1).take(t.len() as int)[i - 1]);
                }
            }
        }
        assert forall|i: int| 0 <= i < w.len() implies !is_ws(s[i]) by {
            if i > 0 {
                assert(!is_ws(s.skip(1)[i - 1]));
            }
        }
        if w.len() < s.len() {
            assert(s[w.len() as int] == s.skip(1)[t.len() as int]);
        }
    }
}

/// The whitespace-separated words of a line, in order, none empty.
pub open spec fn words_of(s: Seq<char>) -> Seq<Seq<char>>
    decreases s.len(),
{
    if s.len() == 0 {
        Seq::<Seq<char>>::empty()
    } else if is_ws(s[0]) {
        words_of(s.skip(1))
    } else {
        let w = take_word(s);
        if 1 <= w.len() <= s.len() {
            seq![w] + words_of(s.skip(w.len() as int))
        } else {
            Seq::<Seq<char>>::empty()
        }
    }
}

/// Splits the characters from `from` on into words.
fn words_from(v: &Vec<char>, from: usize) -> (r: Vec<String>)
    requires
        from <= v@.len(),
    ensures
        r.deep_view() == words_of(v@.skip(from as int)),
    decreases v@.len() - from,
{
    let n = v.len();
    if from == n {
        let r: Vec<String> = Vec::new();
        proof {
            assert(v@.skip(from as int) =~= Seq::<char>::empty());
            assert(r.deep_view() =~= words_of(v@.skip(from as int)));
        }
        return r;
    }
    let ghost s = v@.skip(from as int);
    proof {
        assert(s[0] == v@[from as int]);
    }
    let c = v[from];
    if c == ' ' || c == '\t' || c == '\n' || c == '\r' {
        let r = words_from(v, from + 1);
        proof {
            assert(s.skip(1) =~= v@.skip(from as int + 1));
        }
        return r;
    }
    // scan to the end of the word
    let mut j: usize = from;
    while j < n && !(v[j] == ' ' || v[j] == '\t' || v[j] == '\n' || v[j] == '\r')
        invariant
            from <= j <= n,
            n == v@.len(),
            forall|i: int| from <= i < j ==> !is_ws(#[trigger] v@[i]),
        decreases n - j,
    {
        j = j + 1;
    }
    let word = subvec(v, from, j);
    proof {
        lemma_take_word(s);
        let w = take_word(s);
        // the scanned span is exactly the longest whitespace-free prefix
        assert forall|i: int| 0 <= i < j - from implies !is_ws(s[i]) by {
            assert(s[i] == v@[from + i]);
        }
        assert(w.len() >= j - from) by {
            if w.len() < j - from {
                assert(is_ws(s[w.len() as int]));
                assert(s[w.len() as int] == v@[from + w.len()]);
            }
        }
        assert(w.len() <= j - from) by {
            if w.len() > j - from {
                // then position j is inside the word, but the scan stopped
                assert(j < n);
                assert(!is_ws(s[j - from]));
                assert(s[j - from] == v@[j as int]);
            }
        }
        assert(word@ =~= w);
        assert(s.skip(w.len() as int) =~= v@.skip(j as int));
    }
    let word_s = chars_to_string(&word);
    let mut rest = words_from(v, j);
    let mut r: Vec<String> = Vec::new();
    r.push(word_s);
    let ghost first = r.deep_view();
    let ghost restv = rest.deep_view();
    r.append(&mut rest);
    proof {
        assert(r.deep_view() =~= first + restv);
        assert(first =~= seq![take_word(s)]);
        assert(r.deep_view() =~= words_of(s));
    }
    r
}

/// The words of a line.
pub fn split_words(s: &String) -> (r: Vec<String>)
    ensures
        r.deep_view() == words_of(s@),
{
    let cs = str_chars(s.as_str());
    let r = words_from(&cs, 0);
    proof {
        assert(cs@.skip(0) =~= s@);
    }
    r
}

// ---------------------------------------------------------------------------
// Edit steps
// ---------------------------------------------------------------------------

/// One step of an edit sequence between two word lists.
#[derive(Debug, Clone, PartialEq, Eq)]
pub enum EditStep {
    Kept(String),
    Dropped(String),
    Added(String),
}

/// The mathematical content of an `EditStep`.
pub enum EditStepV {
    KeptV(Seq<char>),
    DroppedV(Seq<char>),
    AddedV(Seq<char>),
}

impl View for EditStep {
    type V = EditStepV;

    open spec fn view(&self) -> EditStepV {
        match self {
            EditStep::Kept(w) => EditStepV::KeptV(w@),
            EditStep::Dropped(w) => EditStepV::DroppedV(w@),
            EditStep::Added(w) => EditStepV::AddedV(w@),
        }
    }
}

pub open spec fn step_views(steps: Seq<EditStep>) -> Seq<EditStepV> {
    steps.map_values(|s: EditStep| s@)
}

/// What the longest-common-subsequence diff of two word lists returns; a
/// function of the two lists alone.
pub uninterp spec fn lcs_steps_of(old: Seq<Seq<char>>, new: Seq<Seq<char>>) -> Seq<EditStepV>;

/// Relies on `lcs_diff::diff`: the edit steps between two word lists, each
/// step's variant mapped one for one; a list diffed against an empty one is
/// all additions, in order.
#[verifier::external_body]
fn lcs_steps(old: &Vec<String>, new: &Vec<String>) -> (r: Vec<EditStep>)
    ensures
        step_views(r@) == lcs_steps_of(old.deep_view(), new.deep_view()),
        old.deep_view().len() == 0 ==> step_views(r@) == new.deep_view().map_values(
            |w: Seq<char>| EditStepV::AddedV(w),
        ),
{
    lcs_diff::diff(old, new).into_iter().map(|d| match d {
        lcs_diff::DiffResult::Added(e) => EditStep::Added(e.data),
        lcs_diff::DiffResult::Removed(e) => EditStep::Dropped(e.data),
        lcs_diff::DiffResult::Common(e) => EditStep::Kept(e.data),
    }).collect()
}

/// How many steps of the sequence are additions.
pub open spec fn added_count(steps: Seq<EditStepV>) -> nat
    decreases steps.len(),
{
    if steps.len() == 0 {
        0
    } else {
        (if steps[0] is AddedV {
            1nat
        } else {
            0nat
        }) + added_count(steps.skip(1))
    }
}

/// Saturation at the counter's maximum.
pub open spec fn sat64(n: nat) -> nat {
    if n > u64::MAX {
        u64::MAX as nat
    } else {
        n
    }
}

/// Counts the additions in an edit sequence.
fn count_added(steps: &Vec<EditStep>) -> (r: u64)
    ensures
        r == sat64(added_count(step_views(steps@))),
{
    let n = steps.len();
    let mut total: u64 = 0;
    let mut i: usize = 0;
    proof {
        assert(step_views(steps@).skip(0) =~= step_views(steps@));
    }
    while i < n
        invariant
            n == steps@.len(),
            i <= n,
            sat64(added_count(step_views(steps@))) == sat64(
                (total + added_count(step_views(steps@).skip(i as int))) as nat,
            ),
            total <= u64::MAX,
        decreases n - i,
    {
        let ghost tail = step_views(steps@).skip(i as int);
        proof {
            assert(tail[0] == step_views(steps@)[i as int]);
            assert(step_views(steps@)[i as int] == steps@[i as int]@);
            assert(tail.skip(1) =~= step_views(steps@).skip(i as int + 1));
        }
        let is_add = match &steps[i] {
            EditStep::Added(_) => true,
            _ => false,
        };
        if is_add {
            if total < u64::MAX {
                total = total + 1;
            }
        }
        i = i + 1;
    }
    proof {
        assert(step_views(steps@).skip(n as int) =~= Seq::<EditStepV>::empty());
    }
    total
}

// ---------------------------------------------------------------------------
// Word grouping
// ---------------------------------------------------------------------------

/// The removed and added words of one file pair.
#[derive(Debug)]
pub struct WordGroup {
    pub old_id: String,
    pub new_id: String,
    pub removed: Vec<String>,
    pub added: Vec<String>,
}

/// The mathematical content of a `WordGroup`.
pub struct WordGroupV {
    pub old_id: Seq<char>,
    pub new_id: Seq<char>,
    pub removed: Seq<Seq<char>>,
    pub added: Seq<Seq<char>>,
}

impl View for WordGroup {
    type V = WordGroupV;

    open spec fn view(&self) -> WordGroupV {
        WordGroupV {
            old_id: self.old_id@,
            new_id: self.new_id@,
            removed: self.removed.deep_view(),
            added: self.added.deep_view(),
        }
    }
}

pub open spec fn group_views(groups: Seq<WordGroup>) -> Seq<WordGroupV> {
    groups.map_values(|g: WordGroup| g@)
}

/// First position of the group keyed by the two blob ids, or -1.
pub open spec fn group_pos(groups: Seq<WordGroupV>, old_id: Seq<char>, new_id: Seq<char>) -> int
    decreases groups.len(),
{
    if groups.len() == 0 {
        -1
    } else if groups[0].old_id == old_id && groups[0].new_id == new_id {
        0
    } else {
        let r = group_pos(groups.skip(1), old_id, new_id);
        if r < 0 {
            -1
        } else {
            r + 1
        }
    }
}

pub proof fn lemma_group_pos(groups: Seq<WordGroupV>, old_id: Seq<char>, new_id: Seq<char>)
    ensures
        group_pos(groups, old_id, new_id) >= 0 ==> {
            let i = group_pos(groups, old_id, new_id);
            0 <= i < groups.len() && groups[i].old_id == old_id && groups[i].new_id == new_id
                && forall|j: int|
                0 <= j < i ==> !(groups[j].old_id == old_id && groups[j].new_id == new_id)
        },
        group_pos(groups, old_id, new_id) < 0 ==> (forall|j: int|
            0 <= j < groups.len() ==> !(groups[j].old_id == old_id && groups[j].new_id == new_id))
            && group_pos(groups, old_id, new_id) == -1,
    decreases groups.len(),
{
    if groups.len() > 0 && !(groups[0].old_id == old_id && groups[0].new_id == new_id) {
        lemma_group_pos(groups.skip(1), old_id, new_id);
        let r = group_pos(groups.skip(1), old_id, new_id);
        if r >= 0 {
            assert(groups.skip(1)[r] == groups[r + 1]);
            assert forall|j: int|
                0 <= j < r + 1 implies !(groups[j].old_id == old_id && groups[j].new_id
                == new_id) by {
                if j > 0 {
                    assert(groups.skip(1)[j - 1] == groups[j]);
                }
            }
        } else {
            assert forall|j: int|
                0 <= j < groups.len() implies !(groups[j].old_id == old_id && groups[j].new_id
                == new_id) by {
                if j > 0 {
                    assert(groups.skip(1)[j - 1] == groups[j]);
                }
            }
        }
    }
}

/// One record folded into the groups: words of an added line join the
/// addition side of its file pair's group, words of a removed line the
/// removal side; metadata files and context lines change nothing.
pub open spec fn words_insert(groups: Seq<WordGroupV>, rec: DiffRecV) -> Seq<WordGroupV> {
    if !countable(rec.path) || (rec.origin != '+' && rec.origin != '-') {
        groups
    } else {
        let i = group_pos(groups, rec.old_id, rec.new_id);
        let g = if i >= 0 {
            groups[i]
        } else {
            WordGroupV {
                old_id: rec.old_id,
                new_id: rec.new_id,
                removed: Seq::<Seq<char>>::empty(),
                added: Seq::<Seq<char>>::empty(),
            }
        };
        let g2 = if rec.origin == '+' {
            WordGroupV { added: g.added + words_of(rec.content), ..g }
        } else {
            WordGroupV { removed: g.removed + words_of(rec.content), ..g }
        };
        if i >= 0 {
            groups.update(i, g2)
        } else {
            groups.push(g2)
        }
    }
}

/// All records folded into groups, first to last.
pub open spec fn fold_words(recs: Seq<DiffRecV>) -> Seq<WordGroupV>
    decreases recs.len(),
{
    if recs.len() == 0 {
        Seq::<WordGroupV>::empty()
    } else {
        words_insert(fold_words(recs.drop_last()), recs.last())
    }
}

/// The added-word count over all groups.
pub open spec fn added_total(groups: Seq<WordGroupV>) -> nat
    decreases groups.len(),
{
    if groups.len() == 0 {
        0
    } else {
        added_count(lcs_steps_of(groups[0].removed, groups[0].added)) + added_total(groups.skip(1))
    }
}

/// The words changed per file pair, grouped as the diff lines come in.
#[derive(Debug)]
pub struct DiffWords {
    pub words: Vec<WordGroup>,
}

impl DiffWords {
    pub fn new() -> (r: DiffWords)
        ensures
            group_views(r.words@) == Seq::<WordGroupV>::empty(),
    {
        let r = DiffWords { words: Vec::new() };
        proof {
            assert(group_views(r.words@) =~= Seq::<WordGroupV>::empty());
        }
        r
    }

    /// Folds one diff line in.
    pub fn insert(&mut self, rec: &DiffRec)
        ensures
            group_views(final(self).words@) == words_insert(group_views(old(self).words@), rec@),
    {
        let ghost pre = group_views(self.words@);
        if !countable_exec(&rec.path) {
            return;
        }
        if !(rec.origin == '+' || rec.origin == '-') {
            return;
        }
        let mut pos: Option<usize> = None;
        let mut i: usize = 0;
        while i < self.words.len() && pos.is_none()
            invariant
                pre == group_views(self.words@),
                i <= self.words@.len(),
                match pos {
                    None => forall|j: int|
                        0 <= j < i ==> !(group_views(self.words@)[j].old_id == rec.old_id@
                            && group_views(self.words@)[j].new_id == rec.new_id@),
                    Some(p) => p < self.words@.len() && group_views(self.words@)[p as int].old_id
                        == rec.old_id@ && group_views(self.words@)[p as int].new_id == rec.new_id@
                        && forall|j: int|
                        0 <= j < p ==> !(group_views(self.words@)[j].old_id == rec.old_id@
                            && group_views(self.words@)[j].new_id == rec.new_id@),
                },
            decreases self.words@.len() - i, (match pos {
                None => 1int,
                Some(_) => 0int,
            }),
        {
            proof {
                assert(group_views(self.words@)[i as int] == self.words@[i as int]@);
            }
            if self.words[i].old_id == rec.old_id && self.words[i].new_id == rec.new_id {
                pos = Some(i);
            } else {
                i = i + 1;
            }
        }
        proof {
            lemma_group_pos(pre, rec.old_id@, rec.new_id@);
        }
        let mut new_words = split_words(&rec.content);
        match pos {
            Some(i) => {
                let mut g = self.words.remove(i);
                let ghost gv = g@;
                if rec.origin == '+' {
                    let ghost base = g.added.deep_view();
                    let ghost added = new_words.deep_view();
                    g.added.append(&mut new_words);
                    proof {
                        assert(g.added.deep_view() =~= base + added);
                    }
                } else {
                    let ghost base = g.removed.deep_view();
                    let ghost added = new_words.deep_view();
                    g.removed.append(&mut new_words);
                    proof {
                        assert(g.removed.deep_view() =~= base + added);
                    }
                }
                self.words.insert(i, g);
                proof {
                    assert(group_views(self.words@) =~= words_insert(pre, rec@));
                }
            },
            None => {
                if rec.origin == '+' {
                    let g = WordGroup {
                        old_id: rec.old_id.clone(),
                        new_id: rec.new_id.clone(),
                        removed: Vec::new(),
                        added: new_words,
                    };
                    proof {
                        assert(g@.removed =~= Seq::<Seq<char>>::empty());
                        assert(Seq::<Seq<char>>::empty() + words_of(rec.content@) =~= words_of(
                            rec.content@,
                        ));
                    }
                    self.words.push(g);
                    proof {
                        assert(group_views(self.words@) =~= words_insert(pre, rec@));
                    }
                } else {
                    let g = WordGroup {
                        old_id: rec.old_id.clone(),
                        new_id: rec.new_id.clone(),
                        removed: new_words,
                        added: Vec::new(),
                    };
                    proof {
                        assert(g@.added =~= Seq::<Seq<char>>::empty());
                        assert(Seq::<Seq<char>>::empty() + words_of(rec.content@) =~= words_of(
                            rec.content@,
                        ));
                    }
                    self.words.push(g);
                    proof {
                        assert(group_views(self.words@) =~= words_insert(pre, rec@));
                    }
                }
            },
        }
    }

    /// How many words the edit sequences over all file pairs add, saturating
    /// at the counter's maximum.
    pub fn diff_words_added(&self) -> (r: u64)
        ensures
            r == sat64(added_total(group_views(self.words@))),
    {
        let n = self.words.len();
        let mut total: u64 = 0;
        let mut i: usize = 0;
        proof {
            assert(group_views(self.words@).skip(0) =~= group_views(self.words@));
        }
        while i < n
            invariant
                n == self.words@.len(),
                i <= n,
                total <= u64::MAX,
                sat64(added_total(group_views(self.words@))) == sat64(
                    (total + added_total(group_views(self.words@).skip(i as int))) as nat,
                ),
            decreases n - i,
        {
            let ghost tail = group_views(self.words@).skip(i as int);
            proof {
                assert(tail[0] == group_views(self.words@)[i as int]);
                assert(group_views(self.words@)[i as int] == self.words@[i as int]@);
                assert(tail.skip(1) =~= group_views(self.words@).skip(i as int + 1));
            }
            let steps = lcs_steps(&self.words[i].removed, &self.words[i].added);
            let c = count_added(&steps);
            if total <= u64::MAX - c {
                total = total + c;
            } else {
                total = u64::MAX;
            }
            i = i + 1;
        }
        proof {
            assert(group_views(self.words@).skip(n as int) =~= Seq::<WordGroupV>::empty());
        }
        total
    }
}

/// Counts the words added across a list of diff lines.
pub fn count_words_added(recs: &Vec<DiffRec>) -> (r: u64)
    ensures
        r == sat64(added_total(fold_words(rec_views(recs@)))),
{
    let mut dw = DiffWords::new();
    let mut i: usize = 0;
    while i < recs.len()
        invariant
            i <= recs@.len(),
            group_views(dw.words@) == fold_words(rec_views(recs@).take(i as int)),
        decreases recs@.len() - i,
    {
        proof {
            assert(rec_views(recs@)[i as int] == recs@[i as int]@);
        }
        dw.insert(&recs[i]);
        proof {
            assert(rec_views(recs@).take(i as int + 1).drop_last() =~= rec_views(recs@).take(
                i as int,
            ));
            assert(rec_views(recs@).take(i as int + 1).last() == rec_views(recs@)[i as int]);
        }
        i = i + 1;
    }
    proof {
        assert(rec_views(recs@).take(recs@.len() as int) =~= rec_views(recs@));
    }
    dw.diff_words_added()
}

/// Words added in the working directory against the ancestor shared with
/// the main branch.
pub fn diff_w_main() -> Result<u64, git2::Error> {
    let repository = crate::git::repo()?;
    let recs = crate::git::diff_lines_vs_main(&repository)?;
    Ok(count_words_added(&recs))
}

/// Words added in the working directory against the last commit.
pub fn diff_w_last_commit() -> Result<u64, git2::Error> {
    let repository = crate::git::repo()?;
    let recs = crate::git::diff_lines_vs_last_commit(&repository)?;
    Ok(count_words_added(&recs))
}


// ---------------------------------------------------------------------------
// The per-file report of added lines
// ---------------------------------------------------------------------------

/// The added lines of one file.
#[derive(Debug)]
pub struct ReportEntry {
    pub path: String,
    pub contents: Vec<String>,
}

/// The mathematical content of a `ReportEntry`.
pub struct ReportEntryV {
    pub path: Seq<char>,
    pub contents: Seq<Seq<char>>,
}

impl View for ReportEntry {
    type V = ReportEntryV;

    open spec fn view(&self) -> ReportEntryV {
        ReportEntryV { path: self.path@, contents: self.contents.deep_view() }
    }
}

pub open spec fn entry_views(entries: Seq<ReportEntry>) -> Seq<ReportEntryV> {
    entries.map_values(|e: ReportEntry| e@)
}

/// A line filed under its path, the paths kept in lexicographic order.
pub open spec fn report_insert(
    entries: Seq<ReportEntryV>,
    path: Seq<char>,
    content: Seq<char>,
) -> Seq<ReportEntryV>
    decreases entries.len(),
{
    if entries.len() == 0 {
        seq![ReportEntryV { path: path, contents: seq![content] }]
    } else if entries[0].path == path {
        entries.update(
            0,
            ReportEntryV { path: entries[0].path, contents: entries[0].contents.push(content) },
        )
    } else if str_lt(path, entries[0].path) {
        seq![ReportEntryV { path: path, contents: seq![content] }] + entries
    } else {
        seq![entries[0]] + report_insert(entries.skip(1), path, content)
    }
}

/// A record folded into the report: only added lines of countable files.
pub open spec fn report_insert_rec(entries: Seq<ReportEntryV>, rec: DiffRecV) -> Seq<
    ReportEntryV,
> {
    if countable(rec.path) && rec.origin == '+' {
        report_insert(entries, rec.path, rec.content)
    } else {
        entries
    }
}

/// All records folded into a report, first to last.
pub open spec fn fold_report(recs: Seq<DiffRecV>) -> Seq<ReportEntryV>
    decreases recs.len(),
{
    if recs.len() == 0 {
        Seq::<ReportEntryV>::empty()
    } else {
        report_insert_rec(fold_report(recs.drop_last()), recs.last())
    }
}

/// The report heading of one file.
pub open spec fn report_header(path: Seq<char>) -> Seq<char> {
    "/// "@ + path + " ///"@
}

/// All of a file's added lines, run together.
pub open spec fn concat_all(contents: Seq<Seq<char>>) -> Seq<char>
    decreases contents.len(),
{
    if contents.len() == 0 {
        Seq::<char>::empty()
    } else {
        contents[0] + concat_all(contents.skip(1))
    }
}

/// The report parts: a heading and the joined lines for each file in order.
pub open spec fn report_parts(entries: Seq<ReportEntryV>) -> Seq<Seq<char>>
    decreases entries.len(),
{
    if entries.len() == 0 {
        Seq::<Seq<char>>::empty()
    } else {
        seq![report_header(entries[0].path), concat_all(entries[0].contents)] + report_parts(
            entries.skip(1),
        )
    }
}

/// The whole report: every part on its own line.
pub open spec fn report_text(entries: Seq<ReportEntryV>) -> Seq<char> {
    join_with(report_parts(entries), "\n"@)
}

pub proof fn lemma_report_parts_push(entries: Seq<ReportEntryV>, e: ReportEntryV)
    ensures
        report_parts(entries.push(e)) == report_parts(entries) + seq![
            report_header(e.path),
            concat_all(e.contents),
        ],
    decreases entries.len(),
{
    if entries.len() == 0 {
        assert(entries.push(e)[0] == e);
        assert(entries.push(e).skip(1) =~= Seq::<ReportEntryV>::empty());
        assert(entries =~= Seq::<ReportEntryV>::empty());
        assert(report_parts(Seq::<ReportEntryV>::empty()) =~= Seq::<Seq<char>>::empty());
        assert(report_parts(entries.push(e)) =~~= report_parts(entries) + seq![
            report_header(e.path),
            concat_all(e.contents),
        ]);
    } else {
        lemma_report_parts_push(entries.skip(1), e);
        assert(entries.push(e).skip(1) =~= entries.skip(1).push(e));
        assert(entries.push(e)[0] == entries[0]);
        assert(report_parts(entries.push(e)) =~~= report_parts(entries) + seq![
            report_header(e.path),
            concat_all(e.contents),
        ]);
    }
}

/// The added lines per file, paths in order.
#[derive(Debug)]
pub struct DiffReport {
    pub lines: Vec<ReportEntry>,
}

impl DiffReport {
    pub fn new() -> (r: DiffReport)
        ensures
            entry_views(r.lines@) == Seq::<ReportEntryV>::empty(),
    {
        let r = DiffReport { lines: Vec::new() };
        proof {
            assert(entry_views(r.lines@) =~= Seq::<ReportEntryV>::empty());
        }
        r
    }

    /// Files one diff line under its path.
    pub fn insert(&mut self, rec: &DiffRec)
        ensures
            entry_views(final(self).lines@) == report_insert_rec(
                entry_views(old(self).lines@),
                rec@,
            ),
    {
        let ghost pre = entry_views(self.lines@);
        if !countable_exec(&rec.path) {
            return;
        }
        if !(rec.origin == '+') {
            return;
        }
        let n = self.lines.len();
        let mut j: usize = 0;
        proof {
            assert(pre.skip(0) =~= pre);
        }
        while j < n && str_lt_exec(&self.lines[j].path, &rec.path)
            invariant
                pre == entry_views(self.lines@),
                n == self.lines@.len(),
                j <= n,
                report_insert(pre, rec.path@, rec.content@) == pre.take(j as int) + report_insert(
                    pre.skip(j as int),
                    rec.path@,
                    rec.content@,
                ),
                forall|q: int| 0 <= q < j ==> str_lt(#[trigger] pre[q].path, rec.path@),
            decreases n - j,
        {
            proof {
                assert(entry_views(self.lines@)[j as int] == self.lines@[j as int]@);
                assert(pre.skip(j as int)[0] == pre[j as int]);
                assert(pre.skip(j as int).skip(1) =~= pre.skip(j as int + 1));
                // orders are strict: a path below the inserted one is neither
                // equal to it nor above it
                lemma_str_lt_asym(pre[j as int].path, rec.path@);
                assert(pre.take(j as int + 1) =~= pre.take(j as int) + seq![pre[j as int]]);
                assert((pre.take(j as int) + seq![pre[j as int]]) + (seq![pre[j as int + 0]].skip(
                    1,
                ) + report_insert(pre.skip(j as int + 1), rec.path@, rec.content@)) =~~= pre.take(
                    j as int,
                ) + (seq![pre[j as int]] + report_insert(pre.skip(j as int + 1), rec.path@, rec.content@)));
            }
            j = j + 1;
        }
        proof {
            assert(entry_views(self.lines@) =~= pre);
        }
        if j < n {
            proof {
                assert(entry_views(self.lines@)[j as int] == self.lines@[j as int]@);
            }
            if self.lines[j].path == rec.path {
                // append to the existing entry
                let mut e = self.lines.remove(j);
                let ghost ev = e@;
                let ghost base = e.contents.deep_view();
                e.contents.push(rec.content.clone());
                proof {
                    assert(e.contents.deep_view() =~= base.push(rec.content@));
                }
                self.lines.insert(j, e);
                proof {
                    assert(pre.skip(j as int)[0] == pre[j as int]);
                    assert(report_insert(pre.skip(j as int), rec.path@, rec.content@)
                        =~= pre.skip(j as int).update(
                        0,
                        ReportEntryV {
                            path: pre[j as int].path,
                            contents: pre[j as int].contents.push(rec.content@),
                        },
                    ));
                    assert(entry_views(self.lines@) =~= pre.take(j as int) + report_insert(
                        pre.skip(j as int),
                        rec.path@,
                        rec.content@,
                    ));
                }
                return;
            }
        }
        // a fresh entry sits at position j
        let mut contents: Vec<String> = Vec::new();
        contents.push(rec.content.clone());
        let e = ReportEntry { path: rec.path.clone(), contents };
        proof {
            assert(e@.contents =~= seq![rec.content@]);
        }
        self.lines.insert(j, e);
        proof {
            if j < n {
                assert(pre.skip(j as int)[0] == pre[j as int]);
                lemma_str_lt_total(rec.path@, pre[j as int].path);
                assert(report_insert(pre.skip(j as int), rec.path@, rec.content@) =~= seq![
                    ReportEntryV { path: rec.path@, contents: seq![rec.content@] },
                ] + pre.skip(j as int));
            } else {
                assert(pre.skip(j as int) =~= Seq::<ReportEntryV>::empty());
            }
            assert(entry_views(self.lines@) =~= pre.take(j as int) + report_insert(
                pre.skip(j as int),
                rec.path@,
                rec.content@,
            ));
        }
    }

    /// Writes the report: for each file in path order, a heading line and
    /// then its added lines run together.
    pub fn report(&self) -> (r: String)
        ensures
            r@ == report_text(entry_views(self.lines@)),
    {
        let n = self.lines.len();
        let ghost entries = entry_views(self.lines@);
        let ghost parts = report_parts(entries);
        let mut out: Vec<char> = Vec::new();
        let ghost acc = Seq::<Seq<char>>::empty();
        let mut i: usize = 0;
        proof {
            assert(entries.take(0) =~= Seq::<ReportEntryV>::empty());
            assert(out@ =~= join_with(report_parts(entries.take(0)), "\n"@));
        }
        while i < n
            invariant
                n == self.lines@.len(),
                entries == entry_views(self.lines@),
                i <= n,
                out@ == join_with(report_parts(entries.take(i as int)), "\n"@),
            decreases n - i,
        {
            proof {
                assert(entry_views(self.lines@)[i as int] == self.lines@[i as int]@);
            }
            let ghost done = report_parts(entries.take(i as int));
            if i > 0 {
                extend_str(&mut out, "\n");
            }
            let ghost out_mid = out@;
            extend_str(&mut out, "/// ");
            extend_str(&mut out, self.lines[i].path.as_str());
            extend_str(&mut out, " ///");
            proof {
                assert(out@ =~= out_mid + report_header(entries[i as int].path));
            }
            extend_str(&mut out, "\n");
            let ghost out_mid2 = out@;
            let cl = self.lines[i].contents.len();
            let mut k: usize = 0;
            while k < cl
                invariant
                    entries == entry_views(self.lines@),
                    i < self.lines@.len(),
                    cl == self.lines@[i as int].contents@.len(),
                    k <= cl,
                    out@ == out_mid2 + concat_all(
                        entries[i as int].contents.take(k as int),
                    ),
                decreases cl - k,
            {
                proof {
                    assert(entry_views(self.lines@)[i as int] == self.lines@[i as int]@);
                    assert(entries[i as int].contents[k as int] == self.lines@[i as int].contents@[
                        k as int]@);
                }
                extend_str(&mut out, self.lines[i].contents[k].as_str());
                proof {
                    lemma_concat_all_push_like(entries[i as int].contents, k as int);
                }
                k = k + 1;
            }
            proof {
                assert(entries[i as int].contents.take(cl as int) =~= entries[i as int].contents);
                // two parts were appended: the heading and the joined lines
                lemma_report_parts_push(entries.take(i as int), entries[i as int]);
                assert(entries.take(i as int + 1) =~= entries.take(i as int).push(
                    entries[i as int],
                ));
                lemma_join_with_push(done, report_header(entries[i as int].path), "\n"@);
                lemma_join_with_push(
                    done.push(report_header(entries[i as int].path)),
                    concat_all(entries[i as int].contents),
                    "\n"@,
                );
                assert(report_parts(entries.take(i as int + 1)) =~= done.push(
                    report_header(entries[i as int].path),
                ).push(concat_all(entries[i as int].contents)));
                assert(out@ =~= join_with(report_parts(entries.take(i as int + 1)), "\n"@));
            }
            i = i + 1;
        }
        proof {
            assert(entries.take(n as int) =~= entries);
        }
        chars_to_string(&out)
    }
}

/// Below in the order means neither equal nor above.
proof fn lemma_str_lt_asym(a: Seq<char>, b: Seq<char>)
    requires
        str_lt(a, b),
    ensures
        a != b,
        !str_lt(b, a),
    decreases a.len(),
{
    if b.len() > 0 && a.len() > 0 && a[0] == b[0] {
        lemma_str_lt_asym(a.skip(1), b.skip(1));
        if a == b {
            assert(a.skip(1) =~= b.skip(1));
        }
    } else {
        if a == b {
            assert(a.len() == b.len());
        }
    }
}

/// The order is total: two distinct strings compare one way or the other.
proof fn lemma_str_lt_total(a: Seq<char>, b: Seq<char>)
    requires
        a != b,
    ensures
        str_lt(a, b) || str_lt(b, a),
    decreases a.len(),
{
    if a.len() == 0 {
        assert(b.len() > 0) by {
            if b.len() == 0 {
                assert(a =~= b);
            }
        }
    } else if b.len() == 0 {
    } else if a[0] == b[0] {
        assert(a.skip(1) != b.skip(1)) by {
            if a.skip(1) == b.skip(1) {
                assert(a =~= seq![a[0]] + a.skip(1));
                assert(b =~= seq![b[0]] + b.skip(1));
            }
        }
        lemma_str_lt_total(a.skip(1), b.skip(1));
    }
}

/// Appending one more line extends the run-together text.
proof fn lemma_concat_all_push_like(contents: Seq<Seq<char>>, k: int)
    requires
        0 <= k < contents.len(),
    ensures
        concat_all(contents.take(k + 1)) == concat_all(contents.take(k)) + contents[k],
    decreases k,
{
    if k == 0 {
        assert(contents.take(1)[0] == contents[0]);
        assert(contents.take(1).skip(1) =~= Seq::<Seq<char>>::empty());
        assert(contents.take(0) =~= Seq::<Seq<char>>::empty());
        assert(concat_all(Seq::<Seq<char>>::empty()) =~= Seq::<char>::empty());
        assert(concat_all(contents.take(1)) =~= contents[0]);
        assert(concat_all(contents.take(0)) + contents[0] =~= contents[0]);
    } else {
        lemma_concat_all_push_like(contents.skip(1), k - 1);
        assert(contents.take(k + 1)[0] == contents[0]);
        assert(contents.take(k + 1).skip(1) =~= contents.skip(1).take(k));
        assert(contents.take(k)[0] == contents[0]);
        assert(contents.take(k).skip(1) =~= contents.skip(1).take(k - 1));
        assert(contents.skip(1)[k - 1] == contents[k]);
        assert(concat_all(contents.take(k + 1)) =~= (contents[0] + concat_all(
            contents.skip(1).take(k - 1),
        )) + contents[k]);
    }
}

/// The report of the diff lines, folded in order.
pub fn build_report(recs: &Vec<DiffRec>) -> (r: String)
    ensures
        r@ == report_text(fold_report(rec_views(recs@))),
{
    let mut rep = DiffReport::new();
    let mut i: usize = 0;
    while i < recs.len()
        invariant
            i <= recs@.len(),
            entry_views(rep.lines@) == fold_report(rec_views(recs@).take(i as int)),
        decreases recs@.len() - i,
    {
        proof {
            assert(rec_views(recs@)[i as int] == recs@[i as int]@);
        }
        rep.insert(&recs[i]);
        proof {
            assert(rec_views(recs@).take(i as int + 1).drop_last() =~= rec_views(recs@).take(
                i as int,
            ));
            assert(rec_views(recs@).take(i as int + 1).last() == rec_views(recs@)[i as int]);
        }
        i = i + 1;
    }
    proof {
        assert(rec_views(recs@).take(recs@.len() as int) =~= rec_views(recs@));
    }
    rep.report()
}

/// The report of the working directory against a commit.
pub fn diff_report(
    repository: &git2::Repository,
    commit_id: &Vec<u8>,
) -> Result<String, git2::Error> {
    let recs = crate::git::diff_lines_vs_commit(repository, commit_id)?;
    Ok(build_report(&recs))
}

/// The report of the working directory against the ancestor shared with the
/// main branch.
pub fn diff_w_main_report() -> Result<String, git2::Error> {
    let repository = crate::git::repo()?;
    let recs = crate::git::diff_lines_vs_main(&repository)?;
    Ok(build_report(&recs))
}

/// The report of the working directory against the last commit.
pub fn diff_w_last_commit_report() -> Result<String, git2::Error> {
    let repository = crate::git::repo()?;
    let recs = crate::git::diff_lines_vs_last_commit(&repository)?;
    Ok(build_report(&recs))
}

} // verus!
