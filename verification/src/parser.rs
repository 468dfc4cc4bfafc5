//! The line-oriented log parser.
//!
//! Each line of the input is classified, in priority order, as a commit
//! header, a numstat line, a change-mode annotation, or a boundary. Headers
//! open a commit, numstat lines accumulate file changes keyed by path, and a
//! boundary line closes the open commit and appends it to the output. The
//! whole transformation is specified by [`spec_parse`] and the executable
//! parser is verified against it.

use vstd::prelude::*;
use vstd::string::StrSliceExecFns;
use vstd::string::StringExecFns;

use crate::model::ChangeModel;
use crate::model::CocoCommit;
use crate::model::CommitModel;
use crate::model::FileChange;
use crate::text::check_digits_at;
use crate::text::check_space;
use crate::text::count_end;
use crate::text::count_val;
use crate::text::digits_at;
use crate::text::digits_val;
use crate::text::find_sub;
use crate::text::hex_end;
use crate::text::is_count_char;
use crate::text::is_space;
use crate::text::lemma_digits_val_bounds;
use crate::text::line_end;
use crate::text::parse_count;
use crate::text::parse_digits;
use crate::text::pow10;
use crate::text::push_range;
use crate::text::char_vec_of;
use crate::text::scan_count_end;
use crate::text::scan_find_sub;
use crate::text::scan_hex_end;
use crate::text::scan_space_end;
use crate::text::scan_word_end;
use crate::text::space_end;
use crate::text::word_end;

verus! {

// ---------------------------------------------------------------------------
// Line classification
// ---------------------------------------------------------------------------

/// A revision marker `[<rev>]` occurs at position `p`: an opening bracket,
/// five to twelve lowercase hexadecimal digits, and a closing bracket.
pub open spec fn rev_at(s: Seq<char>, p: int) -> bool {
    &&& 0 <= p < s.len()
    &&& s[p] == '['
    &&& 5 <= hex_end(s, p + 1) - (p + 1) <= 12
    &&& hex_end(s, p + 1) < s.len()
    &&& s[hex_end(s, p + 1)] == ']'
}

/// Leftmost revision marker at or after `from`.
pub open spec fn find_rev(s: Seq<char>, from: int) -> Option<int>
    decreases s.len() - from,
{
    if from >= s.len() {
        None
    } else if rev_at(s, from) {
        Some(from)
    } else {
        find_rev(s, from + 1)
    }
}

/// A numstat pattern occurs at position `m`: a run of count characters,
/// whitespace, a second run of count characters, and at least one further
/// whitespace character before the file name.
pub open spec fn numstat_at(s: Seq<char>, m: int) -> bool {
    let a = count_end(s, m);
    let b = space_end(s, a);
    let c = count_end(s, b);
    &&& 0 <= m < s.len()
    &&& is_count_char(s[m])
    &&& b > a
    &&& c > b
    &&& c < s.len()
    &&& is_space(s[c])
}

/// Leftmost numstat pattern at or after `from`.
pub open spec fn find_numstat(s: Seq<char>, from: int) -> Option<int>
    decreases s.len() - from,
{
    if from >= s.len() {
        None
    } else if numstat_at(s, from) {
        Some(from)
    } else {
        find_numstat(s, from + 1)
    }
}

/// A change-mode pattern occurs at position `i`: a whitespace character, a
/// word of one to six characters, and another whitespace character. This
/// recognizes git's extended header lines (mode changes, renames).
pub open spec fn mode_at(s: Seq<char>, i: int) -> bool {
    let w = word_end(s, i + 1);
    &&& 0 <= i < s.len()
    &&& is_space(s[i])
    &&& 1 <= w - (i + 1) <= 6
    &&& w < s.len()
    &&& is_space(s[w])
}

/// Leftmost change-mode pattern at or after `from`.
pub open spec fn find_mode(s: Seq<char>, from: int) -> Option<int>
    decreases s.len() - from,
{
    if from >= s.len() {
        None
    } else if mode_at(s, from) {
        Some(from)
    } else {
        find_mode(s, from + 1)
    }
}

/// A whitespace character followed by ten digits occurs at position `i`;
/// the author token of a header ends at the first such position.
pub open spec fn ws10_at(s: Seq<char>, i: int) -> bool {
    &&& 0 <= i < s.len()
    &&& is_space(s[i])
    &&& digits_at(s, i + 1, 10)
}

/// Leftmost whitespace-then-ten-digits at or after `from`.
pub open spec fn find_ws10(s: Seq<char>, from: int) -> Option<int>
    decreases s.len() - from,
{
    if from >= s.len() {
        None
    } else if ws10_at(s, from) {
        Some(from)
    } else {
        find_ws10(s, from + 1)
    }
}

/// Leftmost run of ten digits at or after `from`.
pub open spec fn find_d10(s: Seq<char>, from: int) -> Option<int>
    decreases s.len() - from,
{
    if from >= s.len() {
        None
    } else if digits_at(s, from, 10) {
        Some(from)
    } else {
        find_d10(s, from + 1)
    }
}

// Skipping positions without a match does not change any of the searches.

pub proof fn lemma_find_rev_skip(s: Seq<char>, from: int, to: int)
    requires
        from <= to,
        forall|q: int| from <= q < to ==> !rev_at(s, q),
    ensures
        find_rev(s, from) == find_rev(s, to),
    decreases to - from,
{
    if from < to {
        lemma_find_rev_skip(s, from + 1, to);
    }
}

pub proof fn lemma_find_numstat_skip(s: Seq<char>, from: int, to: int)
    requires
        from <= to,
        forall|q: int| from <= q < to ==> !numstat_at(s, q),
    ensures
        find_numstat(s, from) == find_numstat(s, to),
    decreases to - from,
{
    if from < to {
        lemma_find_numstat_skip(s, from + 1, to);
    }
}

pub proof fn lemma_find_mode_skip(s: Seq<char>, from: int, to: int)
    requires
        from <= to,
        forall|q: int| from <= q < to ==> !mode_at(s, q),
    ensures
        find_mode(s, from) == find_mode(s, to),
    decreases to - from,
{
    if from < to {
        lemma_find_mode_skip(s, from + 1, to);
    }
}

pub proof fn lemma_find_ws10_skip(s: Seq<char>, from: int, to: int)
    requires
        from <= to,
        forall|q: int| from <= q < to ==> !ws10_at(s, q),
    ensures
        find_ws10(s, from) == find_ws10(s, to),
    decreases to - from,
{
    if from < to {
        lemma_find_ws10_skip(s, from + 1, to);
    }
}

pub proof fn lemma_find_d10_skip(s: Seq<char>, from: int, to: int)
    requires
        from <= to,
        forall|q: int| from <= q < to ==> !digits_at(s, q, 10),
    ensures
        find_d10(s, from) == find_d10(s, to),
    decreases to - from,
{
    if from < to {
        lemma_find_d10_skip(s, from + 1, to);
    }
}

// ---------------------------------------------------------------------------
// Field extraction
// ---------------------------------------------------------------------------

/// The commit built from a header line, if every extraction step succeeds:
/// take everything after the first occurrence of `[<rev>] `; the author is
/// everything up to the first whitespace followed by ten digits; take
/// everything after the first occurrence of `<author> `; the date is the
/// first run of ten digits; the message is everything after the first
/// occurrence of `<date> `. A line on which a step fails yields `None` and
/// is skipped as malformed.
pub open spec fn header_commit(l: Seq<char>) -> Option<CommitModel> {
    match find_rev(l, 0) {
        None => None,
        Some(p) => {
            let e = hex_end(l, p + 1);
            let rev = l.subrange(p + 1, e);
            let needle1 = seq!['['] + rev + seq![']', ' '];
            match find_sub(l, needle1, 0) {
                None => None,
                Some(q1) => {
                    let r0 = q1 + needle1.len();
                    match find_ws10(l, r0) {
                        None => None,
                        Some(ae) => {
                            let author = l.subrange(r0, ae);
                            let needle2 = author + seq![' '];
                            match find_sub(l, needle2, r0) {
                                None => None,
                                Some(q2) => {
                                    let w0 = q2 + needle2.len();
                                    match find_d10(l, w0) {
                                        None => None,
                                        Some(d) => {
                                            let dtok = l.subrange(d, d + 10);
                                            let needle3 = dtok + seq![' '];
                                            match find_sub(l, needle3, w0) {
                                                None => None,
                                                Some(q3) => Some(
                                                    CommitModel {
                                                        branch: Seq::empty(),
                                                        rev: rev,
                                                        author: author,
                                                        committer: Seq::empty(),
                                                        date: digits_val(dtok),
                                                        message: l.subrange(
                                                            q3 + 11,
                                                            l.len() as int,
                                                        ),
                                                        changes: Seq::empty(),
                                                    },
                                                ),
                                            }
                                        },
                                    }
                                },
                            }
                        },
                    }
                },
            }
        },
    }
}

/// The file change built from a numstat line, if both counts are valid:
/// the two count tokens and the file name after the separating whitespace.
pub open spec fn numstat_change(l: Seq<char>) -> Option<ChangeModel> {
    match find_numstat(l, 0) {
        None => None,
        Some(m) => {
            let a = count_end(l, m);
            let b = space_end(l, a);
            let c = count_end(l, b);
            let f0 = space_end(l, c);
            match count_val(l.subrange(m, a)) {
                None => None,
                Some(deleted) => match count_val(l.subrange(b, c)) {
                    None => None,
                    Some(added) => Some(
                        ChangeModel {
                            file: l.subrange(f0, l.len() as int),
                            added: added,
                            deleted: deleted,
                            mode: Seq::empty(),
                        },
                    ),
                },
            }
        },
    }
}

// ---------------------------------------------------------------------------
// The parse state machine
// ---------------------------------------------------------------------------

/// Model of the parser state: the commit being accumulated (if any), the
/// file changes collected for it so far, and the finished commits.
#[verifier::ext_equal]
pub struct ParserModel {
    pub current: Option<CommitModel>,
    pub pending: Seq<ChangeModel>,
    pub commits: Seq<CommitModel>,
}

/// The state every parse run starts from.
pub open spec fn init_model() -> ParserModel {
    ParserModel { current: None, pending: Seq::empty(), commits: Seq::empty() }
}

/// Position of the first pending change for file `f`, at or after `k`.
pub open spec fn change_index_of(p: Seq<ChangeModel>, f: Seq<char>, k: int) -> Option<int>
    decreases p.len() - k,
{
    if k >= p.len() {
        None
    } else if p[k].file == f {
        Some(k)
    } else {
        change_index_of(p, f, k + 1)
    }
}

pub proof fn lemma_change_index_skip(p: Seq<ChangeModel>, f: Seq<char>, from: int, to: int)
    requires
        from <= to,
        forall|k: int| from <= k < to ==> p[k].file != f,
    ensures
        change_index_of(p, f, from) == change_index_of(p, f, to),
    decreases to - from,
{
    if from < to {
        lemma_change_index_skip(p, f, from + 1, to);
    }
}

/// Insert a change keyed by its file path: overwrite the first entry with
/// the same path in place, or append a new entry.
pub open spec fn upsert_change(p: Seq<ChangeModel>, c: ChangeModel) -> Seq<ChangeModel> {
    match change_index_of(p, c.file, 0) {
        Some(k) => p.update(k, c),
        None => p.push(c),
    }
}

/// One step of the parser on one line, in strict priority order: a header
/// replaces the current commit; a numstat line upserts a file change; a
/// change-mode line is recognized but changes nothing; any other line is a
/// boundary, which closes the current commit if one is open and is a no-op
/// otherwise.
pub open spec fn spec_step(st: ParserModel, l: Seq<char>) -> ParserModel {
    if find_rev(l, 0) is Some {
        match header_commit(l) {
            Some(c) => ParserModel { current: Some(c), ..st },
            None => st,
        }
    } else if find_numstat(l, 0) is Some {
        match numstat_change(l) {
            Some(fc) => ParserModel { pending: upsert_change(st.pending, fc), ..st },
            None => st,
        }
    } else if find_mode(l, 0) is Some {
        st
    } else {
        match st.current {
            Some(c) => ParserModel {
                current: None,
                pending: Seq::empty(),
                commits: st.commits.push(CommitModel { changes: st.pending, ..c }),
            },
            None => st,
        }
    }
}

/// The parser folded over a sequence of lines.
pub open spec fn spec_run(st: ParserModel, lines: Seq<Seq<char>>) -> ParserModel
    decreases lines.len(),
{
    if lines.len() == 0 {
        st
    } else {
        spec_run(spec_step(st, lines[0]), lines.drop_first())
    }
}

/// The lines of a text, split on `'\n'`; a trailing newline yields a final
/// empty line, exactly as the split the parser performs.
pub open spec fn split_lines(t: Seq<char>) -> Seq<Seq<char>>
    decreases t.len(),
{
    let e = line_end(t, 0);
    if 0 <= e < t.len() {
        seq![t.subrange(0, e)] + split_lines(t.subrange(e + 1, t.len() as int))
    } else {
        seq![t]
    }
}

/// The commits parsed from a whole log text.
pub open spec fn spec_parse(t: Seq<char>) -> Seq<CommitModel> {
    spec_run(init_model(), split_lines(t)).commits
}

// ---------------------------------------------------------------------------
// Executable scanners for the three patterns
// ---------------------------------------------------------------------------

fn check_rev_at(chars: &Vec<char>, p: usize) -> (b: bool)
    requires
        p < chars@.len(),
    ensures
        b == rev_at(chars@, p as int),
{
    let n = chars.len();
    if chars[p] != '[' {
        return false;
    }
    let e = scan_hex_end(chars, p + 1);
    let h = e - (p + 1);
    5 <= h && h <= 12 && e < n && chars[e] == ']'
}

fn check_numstat_at(chars: &Vec<char>, m: usize) -> (b: bool)
    requires
        m < chars@.len(),
    ensures
        b == numstat_at(chars@, m as int),
{
    let n = chars.len();
    if !crate::text::check_count_char(chars[m]) {
        return false;
    }
    let a = scan_count_end(chars, m);
    let b = scan_space_end(chars, a);
    let c = scan_count_end(chars, b);
    b > a && c > b && c < n && check_space(chars[c])
}

fn check_mode_at(chars: &Vec<char>, i: usize) -> (b: bool)
    requires
        i < chars@.len(),
    ensures
        b == mode_at(chars@, i as int),
{
    let n = chars.len();
    if !check_space(chars[i]) {
        return false;
    }
    let w = scan_word_end(chars, i + 1);
    let len = w - (i + 1);
    1 <= len && len <= 6 && w < n && check_space(chars[w])
}

fn scan_find_rev(chars: &Vec<char>) -> (r: Option<usize>)
    ensures
        match r {
            Some(p) => find_rev(chars@, 0) == Some(p as int) && rev_at(chars@, p as int),
            None => find_rev(chars@, 0) is None,
        },
{
    let n = chars.len();
    let mut q: usize = 0;
    while q < n
        invariant
            0 <= q <= n,
            n == chars@.len(),
            find_rev(chars@, 0) == find_rev(chars@, q as int),
        decreases n - q,
    {
        if check_rev_at(chars, q) {
            return Some(q);
        }
        proof {
            lemma_find_rev_skip(chars@, q as int, q + 1);
        }
        q = q + 1;
    }
    None
}

fn scan_find_numstat(chars: &Vec<char>) -> (r: Option<usize>)
    ensures
        match r {
            Some(m) => find_numstat(chars@, 0) == Some(m as int) && numstat_at(chars@, m as int),
            None => find_numstat(chars@, 0) is None,
        },
{
    let n = chars.len();
    let mut q: usize = 0;
    while q < n
        invariant
            0 <= q <= n,
            n == chars@.len(),
            find_numstat(chars@, 0) == find_numstat(chars@, q as int),
        decreases n - q,
    {
        if check_numstat_at(chars, q) {
            return Some(q);
        }
        proof {
            lemma_find_numstat_skip(chars@, q as int, q + 1);
        }
        q = q + 1;
    }
    None
}

fn has_mode_line(chars: &Vec<char>) -> (b: bool)
    ensures
        b == (find_mode(chars@, 0) is Some),
{
    let n = chars.len();
    let mut q: usize = 0;
    while q < n
        invariant
            0 <= q <= n,
            n == chars@.len(),
            find_mode(chars@, 0) == find_mode(chars@, q as int),
        decreases n - q,
    {
        if check_mode_at(chars, q) {
            return true;
        }
        proof {
            lemma_find_mode_skip(chars@, q as int, q + 1);
        }
        q = q + 1;
    }
    false
}

fn scan_find_ws10(chars: &Vec<char>, from: usize) -> (r: Option<usize>)
    requires
        from <= chars@.len(),
    ensures
        match r {
            Some(i) => from <= i && find_ws10(chars@, from as int) == Some(i as int) && ws10_at(
                chars@,
                i as int,
            ),
            None => find_ws10(chars@, from as int) is None,
        },
{
    let n = chars.len();
    let mut q = from;
    while q < n
        invariant
            from <= q <= n,
            n == chars@.len(),
            find_ws10(chars@, from as int) == find_ws10(chars@, q as int),
        decreases n - q,
    {
        if check_space(chars[q]) && check_digits_at(chars, q + 1, 10) {
            return Some(q);
        }
        proof {
            lemma_find_ws10_skip(chars@, q as int, q + 1);
        }
        q = q + 1;
    }
    None
}

fn scan_find_d10(chars: &Vec<char>, from: usize) -> (r: Option<usize>)
    requires
        from <= chars@.len(),
    ensures
        match r {
            Some(i) => from <= i && find_d10(chars@, from as int) == Some(i as int) && digits_at(
                chars@,
                i as int,
                10,
            ),
            None => find_d10(chars@, from as int) is None,
        },
{
    let n = chars.len();
    let mut q = from;
    while q < n
        invariant
            from <= q <= n,
            n == chars@.len(),
            find_d10(chars@, from as int) == find_d10(chars@, q as int),
        decreases n - q,
    {
        if check_digits_at(chars, q, 10) {
            return Some(q);
        }
        proof {
            lemma_find_d10_skip(chars@, q as int, q + 1);
        }
        q = q + 1;
    }
    None
}

// ---------------------------------------------------------------------------
// The parser
// ---------------------------------------------------------------------------

/// Accumulation state of a parse run over the lines of a log text.
pub struct GitMessageParser {
    current_commit: Option<CocoCommit>,
    current_file_change: Vec<FileChange>,
    commits: Vec<CocoCommit>,
}

impl View for GitMessageParser {
    type V = ParserModel;

    closed spec fn view(&self) -> ParserModel {
        ParserModel {
            current: match self.current_commit {
                Some(c) => Some(c@),
                None => None,
            },
            pending: self.current_file_change.deep_view(),
            commits: self.commits.deep_view(),
        }
    }
}

impl Default for GitMessageParser {
    /// A fresh parser: no commit open, nothing pending, nothing emitted.
    fn default() -> (r: Self)
        ensures
            r@ == init_model(),
    {
        let r = GitMessageParser {
            current_commit: None,
            current_file_change: Vec::new(),
            commits: Vec::new(),
        };
        proof {
            assert(r@ =~= init_model());
        }
        r
    }
}

impl GitMessageParser {
    /// Parse a whole log text: split it on newlines and feed every line,
    /// including a final empty one after a trailing newline, to
    /// [`Self::parse_log_by_line`]. Returns the finished commits in the
    /// order their boundaries were found.
    pub fn to_commit_message(text: &str) -> (commits: Vec<CocoCommit>)
        ensures
            commits.deep_view() == spec_parse(text@),
    {
        let chars = char_vec_of(text);
        let n = chars.len();
        let mut parser = GitMessageParser::default();
        let mut start: usize = 0;
        proof {
            assert(text@.subrange(0, n as int) =~= text@);
        }
        loop
            invariant_except_break
                0 <= start <= n,
                n == text@.len(),
                chars@ == text@,
                spec_run(parser@, split_lines(text@.subrange(start as int, n as int)))
                    == spec_run(init_model(), split_lines(text@)),
            ensures
                parser@.commits == spec_parse(text@),
            decreases n - start,
        {
            let ghost rem = text@.subrange(start as int, n as int);
            let mut j = start;
            while j < n && chars[j] != '\n'
                invariant
                    start <= j <= n,
                    n == chars@.len(),
                    forall|k: int| start <= k < j ==> chars@[k] != '\n',
                decreases n - j,
            {
                j = j + 1;
            }
            proof {
                assert(forall|k: int|
                    0 <= k < rem.len() ==> rem[k] == chars@[start as int + k]);
                crate::text::lemma_line_end(rem, 0, j - start as int);
            }
            let line = text.substring_char(start, j);
            let ghost prev = parser@;
            parser.parse_log_by_line(line);
            proof {
                assert(line@ =~= rem.subrange(0, j - start as int));
                if j < n {
                    assert(split_lines(rem) == seq![rem.subrange(0, j - start as int)]
                        + split_lines(rem.subrange(j - start as int + 1, rem.len() as int)));
                    assert(rem.subrange(j - start as int + 1, rem.len() as int) =~= text@.subrange(
                        j + 1,
                        n as int,
                    ));
                    let tail = split_lines(text@.subrange(j + 1, n as int));
                    assert(split_lines(rem) == seq![line@] + tail);
                    assert((seq![line@] + tail)[0] == line@);
                    assert((seq![line@] + tail).drop_first() =~= tail);
                    assert(spec_run(parser@, tail) == spec_run(init_model(), split_lines(text@)));
                } else {
                    assert(line@ =~= rem);
                    assert(split_lines(rem) == seq![rem]);
                    assert(seq![rem][0] == rem);
                    assert(seq![rem].drop_first() =~= Seq::<Seq<char>>::empty());
                    assert(spec_run(prev, seq![rem]) == spec_run(
                        spec_step(prev, rem),
                        seq![rem].drop_first(),
                    ));
                    assert(spec_run(spec_step(prev, rem), Seq::<Seq<char>>::empty())
                        == spec_step(prev, rem));
                    assert(parser@ == spec_step(prev, rem));
                    assert(parser@ == spec_run(init_model(), split_lines(text@)));
                    assert(parser@.commits == spec_parse(text@));
                }
            }
            if j == n {
                break ;
            }
            start = j + 1;
        }
        parser.commits
    }

    /// Classify one line and apply its effect to the parser state, as
    /// described by [`spec_step`].
    pub fn parse_log_by_line(&mut self, text: &str)
        ensures
            final(self)@ == spec_step(old(self)@, text@),
    {
        let chars = char_vec_of(text);
        if let Some(p) = scan_find_rev(&chars) {
            if let Some(commit) = Self::create_commit(text, &chars, p) {
                self.current_commit = Some(commit);
            }
            proof {
                assert(final(self)@ =~= spec_step(old(self)@, text@));
            }
        } else if let Some(m) = scan_find_numstat(&chars) {
            if let Some(change) = Self::create_file_change(text, &chars, m) {
                self.upsert_file_change(change);
            }
            proof {
                assert(final(self)@ =~= spec_step(old(self)@, text@));
            }
        } else if has_mode_line(&chars) {
            // A recognized mode/rename annotation; resolving it is a seam
            // for a future extension, so the line changes nothing.
            proof {
                assert(final(self)@ =~= spec_step(old(self)@, text@));
            }
        } else {
            match self.current_commit.take() {
                Some(c) => {
                    let mut drained: Vec<FileChange> = Vec::new();
                    core::mem::swap(&mut drained, &mut self.current_file_change);
                    let finished = CocoCommit {
                        branch: c.branch,
                        rev: c.rev,
                        author: c.author,
                        committer: c.committer,
                        date: c.date,
                        message: c.message,
                        changes: drained,
                    };
                    self.commits.push(finished);
                    proof {
                        assert(final(self)@ =~= spec_step(old(self)@, text@));
                    }
                },
                None => {
                    proof {
                        assert(final(self)@ =~= spec_step(old(self)@, text@));
                    }
                },
            }
        }
    }

    /// Insert a file change into the pending set, overwriting the first
    /// pending entry with the same path, if any.
    fn upsert_file_change(&mut self, change: FileChange)
        ensures
            final(self)@ == (ParserModel {
                pending: upsert_change(old(self)@.pending, change@),
                ..old(self)@
            }),
    {
        let n = self.current_file_change.len();
        let mut k: usize = 0;
        while k < n
            invariant
                0 <= k <= n,
                n == self.current_file_change@.len(),
                *self == *old(self),
                forall|kk: int| 0 <= kk < k ==> self@.pending[kk].file != change@.file,
            decreases n - k,
        {
            if self.current_file_change[k].file == change.file {
                proof {
                    lemma_change_index_skip(self@.pending, change@.file, 0, k as int);
                    assert(change_index_of(self@.pending, change@.file, k as int) == Some(
                        k as int,
                    ));
                }
                self.current_file_change[k] = change;
                proof {
                    assert(final(self)@ =~= ParserModel {
                        pending: upsert_change(old(self)@.pending, change@),
                        ..old(self)@
                    });
                }
                return ;
            }
            k = k + 1;
        }
        proof {
            lemma_change_index_skip(self@.pending, change@.file, 0, n as int);
            assert(change_index_of(self@.pending, change@.file, 0) is None);
        }
        self.current_file_change.push(change);
        proof {
            assert(final(self)@ =~= ParserModel {
                pending: upsert_change(old(self)@.pending, change@),
                ..old(self)@
            });
        }
    }

    /// Build the commit described by a header line, or `None` when one of
    /// the extraction steps of [`header_commit`] fails.
    fn create_commit(text: &str, chars: &Vec<char>, p: usize) -> (r: Option<CocoCommit>)
        requires
            chars@ == text@,
            find_rev(text@, 0) == Some(p as int),
            rev_at(text@, p as int),
        ensures
            match r {
                Some(c) => header_commit(text@) == Some(c@),
                None => header_commit(text@) is None,
            },
    {
        let n = chars.len();
        let e = scan_hex_end(chars, p + 1);
        let mut needle: Vec<char> = Vec::new();
        needle.push('[');
        push_range(&mut needle, chars, p + 1, e);
        needle.push(']');
        needle.push(' ');
        proof {
            assert(needle@ =~= seq!['['] + chars@.subrange(p + 1, e as int) + seq![']', ' ']);
        }
        let q1 = match scan_find_sub(chars, &needle, 0) {
            None => {
                return None;
            },
            Some(q1) => q1,
        };
        let r0 = q1 + needle.len();
        let ae = match scan_find_ws10(chars, r0) {
            None => {
                return None;
            },
            Some(ae) => ae,
        };
        let mut needle2: Vec<char> = Vec::new();
        push_range(&mut needle2, chars, r0, ae);
        needle2.push(' ');
        proof {
            assert(needle2@ =~= chars@.subrange(r0 as int, ae as int) + seq![' ']);
        }
        let q2 = match scan_find_sub(chars, &needle2, r0) {
            None => {
                return None;
            },
            Some(q2) => q2,
        };
        let w0 = q2 + needle2.len();
        let d = match scan_find_d10(chars, w0) {
            None => {
                return None;
            },
            Some(d) => d,
        };
        let mut needle3: Vec<char> = Vec::new();
        push_range(&mut needle3, chars, d, d + 10);
        needle3.push(' ');
        proof {
            assert(needle3@ =~= chars@.subrange(d as int, d + 10) + seq![' ']);
        }
        let q3 = match scan_find_sub(chars, &needle3, w0) {
            None => {
                return None;
            },
            Some(q3) => q3,
        };
        let m0 = q3 + 11;
        let date_u = match parse_digits(chars, d, d + 10) {
            None => {
                proof {
                    lemma_digits_val_bounds(chars@.subrange(d as int, d + 10));
                    reveal_with_fuel(pow10, 11);
                    assert(pow10(10) == 10000000000);
                    assert(false);
                }
                return None;
            },
            Some(v) => v,
        };
        proof {
            lemma_digits_val_bounds(chars@.subrange(d as int, d + 10));
        }
        let date: i64 = date_u as i64;
        let rev_str = text.substring_char(p + 1, e).to_owned();
        let author_str = text.substring_char(r0, ae).to_owned();
        let msg_str = text.substring_char(m0, n).to_owned();
        let c = CocoCommit {
            branch: String::new(),
            rev: rev_str,
            author: author_str,
            committer: String::new(),
            date: date,
            message: msg_str,
            changes: Vec::new(),
        };
        proof {
            assert(header_commit(text@) is Some);
            assert(c@ =~= header_commit(text@)->0);
        }
        Some(c)
    }

    /// Build the file change described by a numstat line, or `None` when a
    /// count token is not a decimal integer or the `-` sentinel, or does
    /// not fit the count field.
    fn create_file_change(text: &str, chars: &Vec<char>, m: usize) -> (r: Option<FileChange>)
        requires
            chars@ == text@,
            find_numstat(text@, 0) == Some(m as int),
            numstat_at(text@, m as int),
        ensures
            match r {
                Some(c) => numstat_change(text@) == Some(c@),
                None => numstat_change(text@) is None,
            },
    {
        let n = chars.len();
        let a = scan_count_end(chars, m);
        let b = scan_space_end(chars, a);
        let c = scan_count_end(chars, b);
        let f0 = scan_space_end(chars, c);
        let deleted = match parse_count(chars, m, a) {
            None => {
                return None;
            },
            Some(v) => v,
        };
        let added = match parse_count(chars, b, c) {
            None => {
                return None;
            },
            Some(v) => v,
        };
        let file_str = text.substring_char(f0, n).to_owned();
        let fc = FileChange {
            file: file_str,
            added: added,
            deleted: deleted,
            mode: String::new(),
        };
        proof {
            assert(numstat_change(text@) is Some);
            assert(fc@ =~= numstat_change(text@)->0);
        }
        Some(fc)
    }
}

} // verus!
