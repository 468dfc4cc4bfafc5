//! Laws of the parser on well-formed inputs.
//!
//! A well-formed log is a sequence of commit blocks, each a header line,
//! some numstat lines, and a closing blank line. The lemmas here prove,
//! from the contracts in [`crate::parser`], that such a log parses to
//! exactly one commit per block, in block order, with the header tokens and
//! file changes of its block — and that a final block without its closing
//! blank line is not emitted.

use vstd::prelude::*;

use crate::model::ChangeModel;
use crate::model::CommitModel;
use crate::parser::ParserModel;
use crate::parser::change_index_of;
use crate::parser::find_d10;
use crate::parser::find_mode;
use crate::parser::find_numstat;
use crate::parser::find_rev;
use crate::parser::find_ws10;
use crate::parser::header_commit;
use crate::parser::init_model;
use crate::parser::lemma_change_index_skip;
use crate::parser::lemma_find_ws10_skip;
use crate::parser::numstat_change;
use crate::parser::spec_parse;
use crate::parser::spec_run;
use crate::parser::spec_step;
use crate::parser::split_lines;
use crate::parser::upsert_change;
use crate::parser::ws10_at;
use crate::text::count_val;
use crate::text::digits_at;
use crate::text::digits_val;
use crate::text::find_sub;
use crate::text::hex_end;
use crate::text::is_count_char;
use crate::text::is_digit;
use crate::text::is_hex_digit;
use crate::text::is_space;
use crate::text::lemma_count_end;
use crate::text::lemma_hex_end;
use crate::text::lemma_line_end;
use crate::text::lemma_space_end;
use crate::text::sub_at;

verus! {

// ---------------------------------------------------------------------------
// Well-formed blocks
// ---------------------------------------------------------------------------

/// Description of one well-formed numstat line: the two count tokens, the
/// whitespace separators, and the file path.
pub struct NumLineDesc {
    pub deleted: Seq<char>,
    pub sep1: Seq<char>,
    pub added: Seq<char>,
    pub sep2: Seq<char>,
    pub file: Seq<char>,
}

/// Description of one well-formed commit block: the header tokens and the
/// numstat lines.
pub struct BlockDesc {
    pub rev: Seq<char>,
    pub author: Seq<char>,
    pub date: Seq<char>,
    pub message: Seq<char>,
    pub files: Seq<NumLineDesc>,
}

/// The text of a numstat line.
pub open spec fn numline_text(nl: NumLineDesc) -> Seq<char> {
    nl.deleted + nl.sep1 + nl.added + nl.sep2 + nl.file
}

/// The text of a header line.
pub open spec fn header_text(b: BlockDesc) -> Seq<char> {
    seq!['['] + b.rev + seq![']', ' '] + b.author + seq![' '] + b.date + seq![' '] + b.message
}

/// The lines of one block: header, numstat lines, closing blank line.
pub open spec fn numline_texts(fs: Seq<NumLineDesc>) -> Seq<Seq<char>>
    decreases fs.len(),
{
    if fs.len() == 0 {
        Seq::empty()
    } else {
        seq![numline_text(fs[0])] + numline_texts(fs.drop_first())
    }
}

pub open spec fn block_lines(b: BlockDesc) -> Seq<Seq<char>> {
    seq![header_text(b)] + numline_texts(b.files) + seq![Seq::<char>::empty()]
}

/// The lines of a sequence of blocks.
pub open spec fn blocks_lines(bs: Seq<BlockDesc>) -> Seq<Seq<char>>
    decreases bs.len(),
{
    if bs.len() == 0 {
        Seq::empty()
    } else {
        block_lines(bs[0]) + blocks_lines(bs.drop_first())
    }
}

/// Lines joined back into one text with a newline between any two lines.
pub open spec fn join_lines(lines: Seq<Seq<char>>) -> Seq<char>
    decreases lines.len(),
{
    if lines.len() == 0 {
        Seq::empty()
    } else if lines.len() == 1 {
        lines[0]
    } else {
        lines[0] + seq!['\n'] + join_lines(lines.drop_first())
    }
}

pub open spec fn no_newline(s: Seq<char>) -> bool {
    forall|j: int| 0 <= j < s.len() ==> s[j] != '\n'
}

/// A nonempty separator of blanks and tabs.
pub open spec fn plain_sep(s: Seq<char>) -> bool {
    s.len() >= 1 && forall|j: int| 0 <= j < s.len() ==> (s[j] == ' ' || s[j] == '\t')
}

/// A well-formed numstat line: nonempty count tokens with valid values,
/// nonempty blank separators, and a file path that does not begin with
/// whitespace, contains no newline, and contains no revision marker.
pub open spec fn wf_numline(nl: NumLineDesc) -> bool {
    &&& nl.deleted.len() >= 1
    &&& forall|j: int| 0 <= j < nl.deleted.len() ==> is_count_char(nl.deleted[j])
    &&& plain_sep(nl.sep1)
    &&& nl.added.len() >= 1
    &&& forall|j: int| 0 <= j < nl.added.len() ==> is_count_char(nl.added[j])
    &&& plain_sep(nl.sep2)
    &&& count_val(nl.deleted) is Some
    &&& count_val(nl.added) is Some
    &&& nl.file.len() == 0 || !is_space(nl.file[0])
    &&& no_newline(nl.file)
    &&& find_rev(numline_text(nl), 0) is None
}

/// A well-formed header: a hexadecimal revision of five to twelve digits, a
/// ten-digit date, and an author that contains no whitespace followed by
/// ten digits (so that the author token ends exactly at the date).
pub open spec fn wf_header(b: BlockDesc) -> bool {
    &&& 5 <= b.rev.len() <= 12
    &&& forall|j: int| 0 <= j < b.rev.len() ==> is_hex_digit(b.rev[j])
    &&& b.date.len() == 10
    &&& forall|j: int| 0 <= j < b.date.len() ==> is_digit(b.date[j])
    &&& no_newline(b.author)
    &&& no_newline(b.message)
    &&& forall|j: int| 0 <= j ==> !ws10_at(b.author, j)
}

/// A well-formed block: a well-formed header and well-formed numstat lines
/// with pairwise distinct file paths.
pub open spec fn wf_block(b: BlockDesc) -> bool {
    &&& wf_header(b)
    &&& forall|k: int| 0 <= k < b.files.len() ==> wf_numline(#[trigger] b.files[k])
    &&& forall|k1: int, k2: int|
        0 <= k1 < k2 < b.files.len() ==> b.files[k1].file != b.files[k2].file
}

/// The file change a well-formed numstat line describes.
pub open spec fn numline_change(nl: NumLineDesc) -> ChangeModel {
    ChangeModel {
        file: nl.file,
        added: count_val(nl.added)->0,
        deleted: count_val(nl.deleted)->0,
        mode: Seq::empty(),
    }
}

pub open spec fn numline_changes(fs: Seq<NumLineDesc>) -> Seq<ChangeModel>
    decreases fs.len(),
{
    if fs.len() == 0 {
        Seq::empty()
    } else {
        seq![numline_change(fs[0])] + numline_changes(fs.drop_first())
    }
}

/// The commit a well-formed block describes.
pub open spec fn block_commit(b: BlockDesc) -> CommitModel {
    CommitModel {
        branch: Seq::empty(),
        rev: b.rev,
        author: b.author,
        committer: Seq::empty(),
        date: digits_val(b.date),
        message: b.message,
        changes: numline_changes(b.files),
    }
}

pub open spec fn block_commits(bs: Seq<BlockDesc>) -> Seq<CommitModel>
    decreases bs.len(),
{
    if bs.len() == 0 {
        Seq::empty()
    } else {
        seq![block_commit(bs[0])] + block_commits(bs.drop_first())
    }
}

pub proof fn lemma_numline_changes_len(fs: Seq<NumLineDesc>)
    ensures
        numline_changes(fs).len() == fs.len(),
    decreases fs.len(),
{
    if fs.len() > 0 {
        lemma_numline_changes_len(fs.drop_first());
    }
}

// ---------------------------------------------------------------------------
// Runs over concatenated line sequences
// ---------------------------------------------------------------------------

/// Running the parser over concatenated line sequences is running it over
/// the first, then the second.
pub proof fn lemma_run_concat(st: ParserModel, l1: Seq<Seq<char>>, l2: Seq<Seq<char>>)
    ensures
        spec_run(st, l1 + l2) == spec_run(spec_run(st, l1), l2),
    decreases l1.len(),
{
    if l1.len() == 0 {
        assert(l1 + l2 =~= l2);
    } else {
        assert((l1 + l2)[0] == l1[0]);
        assert((l1 + l2).drop_first() =~= l1.drop_first() + l2);
        lemma_run_concat(spec_step(st, l1[0]), l1.drop_first(), l2);
    }
}

// ---------------------------------------------------------------------------
// Splitting a joined text recovers the lines
// ---------------------------------------------------------------------------

pub proof fn lemma_split_join(lines: Seq<Seq<char>>)
    requires
        lines.len() >= 1,
        forall|i: int| 0 <= i < lines.len() ==> no_newline(#[trigger] lines[i]),
    ensures
        split_lines(join_lines(lines)) == lines,
    decreases lines.len(),
{
    let t = join_lines(lines);
    let l0 = lines[0];
    if lines.len() == 1 {
        assert(t == l0);
        lemma_line_end(t, 0, t.len() as int);
        assert(split_lines(t) =~= lines);
    } else {
        let rest = join_lines(lines.drop_first());
        assert(t == l0 + seq!['\n'] + rest);
        assert(forall|k: int| 0 <= k < l0.len() ==> t[k] == l0[k]);
        assert(t[l0.len() as int] == '\n');
        lemma_line_end(t, 0, l0.len() as int);
        assert(t.subrange(0, l0.len() as int) =~= l0);
        assert(t.subrange(l0.len() as int + 1, t.len() as int) =~= rest);
        assert(split_lines(t) == seq![l0] + split_lines(rest));
        assert(forall|i: int|
            0 <= i < lines.drop_first().len() ==> no_newline(#[trigger] lines.drop_first()[i]));
        lemma_split_join(lines.drop_first());
        assert(seq![l0] + lines.drop_first() =~= lines);
    }
}

// ---------------------------------------------------------------------------
// Every line of a well-formed block is newline-free
// ---------------------------------------------------------------------------

pub proof fn lemma_header_no_newline(b: BlockDesc)
    requires
        wf_header(b),
    ensures
        no_newline(header_text(b)),
{
    let l = header_text(b);
    assert forall|j: int| 0 <= j < l.len() implies l[j] != '\n' by {
        if l[j] == '\n' {
            assert(('\n' as u32) == 10);
        }
    }
}

pub proof fn lemma_numline_no_newline(nl: NumLineDesc)
    requires
        wf_numline(nl),
    ensures
        no_newline(numline_text(nl)),
{
    let l = numline_text(nl);
    assert forall|j: int| 0 <= j < l.len() implies l[j] != '\n' by {
        if l[j] == '\n' {
            assert(('\n' as u32) == 10);
        }
    }
}

pub proof fn lemma_block_lines_no_newline(b: BlockDesc)
    requires
        wf_block(b),
    ensures
        forall|i: int| 0 <= i < block_lines(b).len() ==> no_newline(#[trigger] block_lines(b)[i]),
{
    lemma_header_no_newline(b);
    lemma_numline_texts_no_newline(b.files);
    assert forall|i: int| 0 <= i < block_lines(b).len() implies no_newline(
        #[trigger] block_lines(b)[i],
    ) by {
        lemma_numline_texts_len(b.files);
        if i == 0 {
        } else if i <= b.files.len() {
            assert(block_lines(b)[i] == numline_texts(b.files)[i - 1]);
        } else {
            assert(block_lines(b)[i] =~= Seq::<char>::empty());
        }
    }
}

pub proof fn lemma_numline_texts_len(fs: Seq<NumLineDesc>)
    ensures
        numline_texts(fs).len() == fs.len(),
    decreases fs.len(),
{
    if fs.len() > 0 {
        lemma_numline_texts_len(fs.drop_first());
    }
}

pub proof fn lemma_numline_texts_no_newline(fs: Seq<NumLineDesc>)
    requires
        forall|k: int| 0 <= k < fs.len() ==> wf_numline(#[trigger] fs[k]),
    ensures
        forall|i: int|
            0 <= i < numline_texts(fs).len() ==> no_newline(#[trigger] numline_texts(fs)[i]),
    decreases fs.len(),
{
    if fs.len() > 0 {
        lemma_numline_no_newline(fs[0]);
        assert(forall|k: int| 0 <= k < fs.drop_first().len() ==> wf_numline(
            #[trigger] fs.drop_first()[k],
        ));
        lemma_numline_texts_no_newline(fs.drop_first());
        lemma_numline_texts_len(fs);
        assert forall|i: int| 0 <= i < numline_texts(fs).len() implies no_newline(
            #[trigger] numline_texts(fs)[i],
        ) by {
            if i == 0 {
                assert(numline_texts(fs)[0] == numline_text(fs[0]));
            } else {
                assert(numline_texts(fs)[i] == numline_texts(fs.drop_first())[i - 1]);
            }
        }
    }
}

pub proof fn lemma_blocks_lines_no_newline(bs: Seq<BlockDesc>)
    requires
        forall|i: int| 0 <= i < bs.len() ==> wf_block(#[trigger] bs[i]),
    ensures
        forall|i: int|
            0 <= i < blocks_lines(bs).len() ==> no_newline(#[trigger] blocks_lines(bs)[i]),
    decreases bs.len(),
{
    if bs.len() > 0 {
        lemma_block_lines_no_newline(bs[0]);
        assert(forall|i: int| 0 <= i < bs.drop_first().len() ==> wf_block(
            #[trigger] bs.drop_first()[i],
        ));
        lemma_blocks_lines_no_newline(bs.drop_first());
        assert forall|i: int| 0 <= i < blocks_lines(bs).len() implies no_newline(
            #[trigger] blocks_lines(bs)[i],
        ) by {
            if i < block_lines(bs[0]).len() {
                assert(blocks_lines(bs)[i] == block_lines(bs[0])[i]);
            } else {
                assert(blocks_lines(bs)[i] == blocks_lines(bs.drop_first())[i - block_lines(
                    bs[0],
                ).len()]);
            }
        }
    }
}

// ---------------------------------------------------------------------------
// What the parser extracts from one well-formed line
// ---------------------------------------------------------------------------

/// A well-formed header line is classified as a header, and every
/// extraction step recovers exactly the tokens the line was built from.
pub proof fn lemma_header_line(b: BlockDesc)
    requires
        wf_header(b),
    ensures
        find_rev(header_text(b), 0) == Some(0int),
        header_commit(header_text(b)) == Some(
            CommitModel {
                branch: Seq::empty(),
                rev: b.rev,
                author: b.author,
                committer: Seq::empty(),
                date: digits_val(b.date),
                message: b.message,
                changes: Seq::empty(),
            },
        ),
{
    let l = header_text(b);
    let rlen = b.rev.len() as int;
    let alen = b.author.len() as int;
    let r0 = rlen + 3;
    let ae = r0 + alen;
    let w0 = ae + 1;
    let m0 = w0 + 11;
    assert(l.len() == m0 + b.message.len());
    assert(l[0] == '[');
    assert(forall|x: int| 0 <= x < rlen ==> l[1 + x] == b.rev[x]);
    assert(l[rlen + 1] == ']');
    assert(l[rlen + 2] == ' ');
    assert(forall|x: int| 0 <= x < alen ==> l[r0 + x] == b.author[x]);
    assert(l[ae] == ' ');
    assert(forall|x: int| 0 <= x < 10 ==> l[w0 + x] == b.date[x]);
    assert(l[w0 + 10] == ' ');
    assert(forall|x: int| 0 <= x < b.message.len() ==> l[m0 + x] == b.message[x]);
    // the revision marker is found at the start of the line
    assert(!is_hex_digit(']'));
    lemma_hex_end(l, 1, 1 + rlen);
    assert(rev_at_start(l, rlen));
    assert(find_rev(l, 0) == Some(0int));
    assert(l.subrange(1, 1 + rlen) =~= b.rev);
    let needle1 = seq!['['] + b.rev + seq![']', ' '];
    assert(l.subrange(0, r0) =~= needle1);
    assert(sub_at(l, needle1, 0));
    assert(find_sub(l, needle1, 0) == Some(0int));
    // the author token ends exactly at the whitespace before the date
    assert forall|j: int| r0 <= j < ae implies !ws10_at(l, j) by {
        if ws10_at(l, j) {
            if j + 11 <= ae {
                assert(is_space(b.author[j - r0]));
                assert forall|x: int| j - r0 + 1 <= x < j - r0 + 11 implies is_digit(
                    b.author[x],
                ) by {
                    assert(b.author[x] == l[r0 + x]);
                }
                assert(digits_at(b.author, j - r0 + 1, 10));
                assert(ws10_at(b.author, j - r0));
            } else {
                assert(!is_digit(l[ae]));
                assert(j + 1 <= ae < j + 11);
                assert(!digits_at(l, j + 1, 10));
            }
        }
    }
    assert(digits_at(l, w0, 10));
    assert(ws10_at(l, ae));
    lemma_find_ws10_skip(l, r0, ae);
    assert(find_ws10(l, r0) == Some(ae));
    assert(l.subrange(r0, ae) =~= b.author);
    // the line continues with `<author> `, so the split succeeds in place
    let needle2 = b.author + seq![' '];
    assert(l.subrange(r0, r0 + alen + 1) =~= needle2);
    assert(sub_at(l, needle2, r0));
    assert(find_sub(l, needle2, r0) == Some(r0));
    // the date is the ten digits right after, followed by a blank
    assert(find_d10(l, w0) == Some(w0));
    assert(l.subrange(w0, w0 + 10) =~= b.date);
    let needle3 = b.date + seq![' '];
    assert(l.subrange(w0, w0 + 11) =~= needle3);
    assert(sub_at(l, needle3, w0));
    assert(find_sub(l, needle3, w0) == Some(w0));
    assert(l.subrange(m0, l.len() as int) =~= b.message);
    assert(header_commit(l) is Some);
    assert(header_commit(l)->0 =~= CommitModel {
        branch: Seq::empty(),
        rev: b.rev,
        author: b.author,
        committer: Seq::empty(),
        date: digits_val(b.date),
        message: b.message,
        changes: Seq::empty(),
    });
}

/// The revision marker of a well-formed header stands at position zero.
pub open spec fn rev_at_start(l: Seq<char>, rlen: int) -> bool {
    &&& 0 < l.len()
    &&& l[0] == '['
    &&& hex_end(l, 1) == 1 + rlen
    &&& 5 <= rlen <= 12
    &&& 1 + rlen < l.len()
    &&& l[1 + rlen] == ']'
}

/// A well-formed numstat line is classified as a numstat line and yields
/// exactly the change it was built from.
pub proof fn lemma_numline(nl: NumLineDesc)
    requires
        wf_numline(nl),
    ensures
        find_rev(numline_text(nl), 0) is None,
        find_numstat(numline_text(nl), 0) == Some(0int),
        numstat_change(numline_text(nl)) == Some(numline_change(nl)),
{
    let l = numline_text(nl);
    let dlen = nl.deleted.len() as int;
    let p1 = dlen + nl.sep1.len() as int;
    let p2 = p1 + nl.added.len() as int;
    let p3 = p2 + nl.sep2.len() as int;
    assert(l.len() == p3 + nl.file.len());
    assert(forall|x: int| 0 <= x < dlen ==> l[x] == nl.deleted[x]);
    assert(forall|x: int| 0 <= x < nl.sep1.len() ==> l[dlen + x] == nl.sep1[x]);
    assert(forall|x: int| 0 <= x < nl.added.len() ==> l[p1 + x] == nl.added[x]);
    assert(forall|x: int| 0 <= x < nl.sep2.len() ==> l[p2 + x] == nl.sep2[x]);
    assert(forall|x: int| 0 <= x < nl.file.len() ==> l[p3 + x] == nl.file[x]);
    assert(!is_count_char(l[dlen]));
    lemma_count_end(l, 0, dlen);
    assert(forall|x: int| dlen <= x < p1 ==> is_space(l[x]));
    assert(!is_space(l[p1]));
    lemma_space_end(l, dlen, p1);
    assert(!is_count_char(l[p2]));
    lemma_count_end(l, p1, p2);
    assert(forall|x: int| p2 <= x < p3 ==> is_space(l[x]));
    assert(p3 == l.len() || !is_space(l[p3]));
    lemma_space_end(l, p2, p3);
    assert(crate::parser::numstat_at(l, 0));
    assert(find_numstat(l, 0) == Some(0int));
    assert(l.subrange(0, dlen) =~= nl.deleted);
    assert(l.subrange(p1, p2) =~= nl.added);
    assert(l.subrange(p3, l.len() as int) =~= nl.file);
    assert(numstat_change(l) is Some);
    assert(numstat_change(l)->0 =~= numline_change(nl));
}

// ---------------------------------------------------------------------------
// Running the parser over well-formed blocks
// ---------------------------------------------------------------------------

/// With a commit open, a run of well-formed numstat lines with fresh,
/// pairwise distinct paths appends exactly their changes to the pending
/// set, in line order, and touches nothing else.
pub proof fn lemma_run_numlines(st: ParserModel, fs: Seq<NumLineDesc>)
    requires
        st.current is Some,
        forall|k: int| 0 <= k < fs.len() ==> wf_numline(#[trigger] fs[k]),
        forall|k1: int, k2: int| 0 <= k1 < k2 < fs.len() ==> fs[k1].file != fs[k2].file,
        forall|i: int, k: int|
            0 <= i < st.pending.len() && 0 <= k < fs.len() ==> st.pending[i].file != fs[k].file,
    ensures
        spec_run(st, numline_texts(fs)) == (ParserModel {
            pending: st.pending + numline_changes(fs),
            ..st
        }),
    decreases fs.len(),
{
    if fs.len() == 0 {
        assert(st.pending + numline_changes(fs) =~= st.pending);
        assert((ParserModel { pending: st.pending + numline_changes(fs), ..st }) =~= st);
    } else {
        let l0 = numline_text(fs[0]);
        lemma_numline(fs[0]);
        let c0 = numline_change(fs[0]);
        assert(forall|i: int| 0 <= i < st.pending.len() ==> st.pending[i].file != c0.file);
        lemma_change_index_skip(st.pending, c0.file, 0, st.pending.len() as int);
        assert(change_index_of(st.pending, c0.file, 0) is None);
        let st1 = spec_step(st, l0);
        assert(st1 == (ParserModel { pending: upsert_change(st.pending, c0), ..st }));
        assert(st1.pending == st.pending.push(c0));
        let rest = fs.drop_first();
        assert(forall|k: int| 0 <= k < rest.len() ==> wf_numline(#[trigger] rest[k]));
        assert forall|k1: int, k2: int| 0 <= k1 < k2 < rest.len() implies rest[k1].file
            != rest[k2].file by {
            assert(rest[k1] == fs[k1 + 1]);
            assert(rest[k2] == fs[k2 + 1]);
        }
        assert forall|i: int, k: int|
            0 <= i < st1.pending.len() && 0 <= k < rest.len() implies st1.pending[i].file
            != rest[k].file by {
            assert(rest[k] == fs[k + 1]);
            if i < st.pending.len() {
                assert(st1.pending[i] == st.pending[i]);
            } else {
                assert(st1.pending[i] == c0);
                assert(fs[0].file != fs[k + 1].file);
            }
        }
        lemma_run_numlines(st1, rest);
        assert(numline_texts(fs)[0] == l0);
        assert(numline_texts(fs).drop_first() =~= numline_texts(rest));
        assert(spec_run(st, numline_texts(fs)) == spec_run(st1, numline_texts(rest)));
        assert(st.pending.push(c0) + numline_changes(rest) =~= st.pending + numline_changes(fs));
        assert((ParserModel { pending: st1.pending + numline_changes(rest), ..st1 })
            == (ParserModel { pending: st.pending + numline_changes(fs), ..st }));
    }
}

/// From an idle state with nothing pending, one whole well-formed block —
/// header, numstat lines, blank line — appends exactly the block's commit
/// and returns to an idle state with nothing pending.
pub proof fn lemma_run_block(st: ParserModel, b: BlockDesc)
    requires
        wf_block(b),
        st.current is None,
        st.pending == Seq::<ChangeModel>::empty(),
    ensures
        spec_run(st, block_lines(b)) == (ParserModel {
            current: None,
            pending: Seq::empty(),
            commits: st.commits.push(block_commit(b)),
        }),
{
    let h = header_text(b);
    lemma_header_line(b);
    let hc = CommitModel {
        branch: Seq::empty(),
        rev: b.rev,
        author: b.author,
        committer: Seq::empty(),
        date: digits_val(b.date),
        message: b.message,
        changes: Seq::empty(),
    };
    let st1 = spec_step(st, h);
    assert(st1 == (ParserModel { current: Some(hc), ..st }));
    let ls = block_lines(b);
    let blank = Seq::<char>::empty();
    assert(ls[0] == h);
    assert(ls.drop_first() =~= numline_texts(b.files) + seq![blank]);
    assert(spec_run(st, ls) == spec_run(st1, numline_texts(b.files) + seq![blank]));
    lemma_run_concat(st1, numline_texts(b.files), seq![blank]);
    lemma_run_numlines(st1, b.files);
    let st2 = ParserModel { pending: st1.pending + numline_changes(b.files), ..st1 };
    assert(st2.pending =~= numline_changes(b.files));
    assert(find_rev(blank, 0) is None);
    assert(find_numstat(blank, 0) is None);
    assert(find_mode(blank, 0) is None);
    let st3 = spec_step(st2, blank);
    assert(st3 == (ParserModel {
        current: None,
        pending: Seq::empty(),
        commits: st2.commits.push(CommitModel { changes: st2.pending, ..hc }),
    }));
    assert(CommitModel { changes: st2.pending, ..hc } =~= block_commit(b));
    assert(seq![blank][0] == blank);
    assert(seq![blank].drop_first() =~= Seq::<Seq<char>>::empty());
    assert(spec_run(st2, seq![blank]) == spec_run(st3, seq![blank].drop_first()));
    assert(spec_run(st3, Seq::<Seq<char>>::empty()) == st3);
    assert(spec_run(st2, seq![blank]) == st3);
    assert(spec_run(st, ls) == st3);
}

/// From an idle state with nothing pending, a run of well-formed blocks
/// appends exactly their commits, in block order.
pub proof fn lemma_run_blocks(st: ParserModel, bs: Seq<BlockDesc>)
    requires
        st.current is None,
        st.pending == Seq::<ChangeModel>::empty(),
        forall|i: int| 0 <= i < bs.len() ==> wf_block(#[trigger] bs[i]),
    ensures
        spec_run(st, blocks_lines(bs)) == (ParserModel {
            current: None,
            pending: Seq::empty(),
            commits: st.commits + block_commits(bs),
        }),
    decreases bs.len(),
{
    if bs.len() == 0 {
        assert(st.commits + block_commits(bs) =~= st.commits);
        assert((ParserModel {
            current: None,
            pending: Seq::empty(),
            commits: st.commits + block_commits(bs),
        }) =~= st);
    } else {
        lemma_run_concat(st, block_lines(bs[0]), blocks_lines(bs.drop_first()));
        lemma_run_block(st, bs[0]);
        let st1 = ParserModel {
            current: None,
            pending: Seq::empty(),
            commits: st.commits.push(block_commit(bs[0])),
        };
        assert(forall|i: int| 0 <= i < bs.drop_first().len() ==> wf_block(
            #[trigger] bs.drop_first()[i],
        ));
        lemma_run_blocks(st1, bs.drop_first());
        assert(st.commits.push(block_commit(bs[0])) + block_commits(bs.drop_first())
            =~= st.commits + block_commits(bs));
    }
}

/// The lines of a block whose closing blank line is missing.
pub open spec fn open_block_lines(b: BlockDesc) -> Seq<Seq<char>> {
    seq![header_text(b)] + numline_texts(b.files)
}

/// A block without its closing blank line leaves its commit accumulating
/// and emits nothing.
pub proof fn lemma_run_open_block(st: ParserModel, b: BlockDesc)
    requires
        wf_block(b),
        st.current is None,
        st.pending == Seq::<ChangeModel>::empty(),
    ensures
        spec_run(st, open_block_lines(b)).commits == st.commits,
{
    let h = header_text(b);
    lemma_header_line(b);
    let st1 = spec_step(st, h);
    let ls = open_block_lines(b);
    assert(ls[0] == h);
    assert(ls.drop_first() =~= numline_texts(b.files));
    assert(spec_run(st, ls) == spec_run(st1, numline_texts(b.files)));
    lemma_run_numlines(st1, b.files);
}

// ---------------------------------------------------------------------------
// The laws, on whole log texts
// ---------------------------------------------------------------------------

/// The text of a well-formed log: the lines of its blocks joined by
/// newlines. The blank line that closes each block becomes the blank
/// separator between blocks, and the last block's blank line becomes the
/// trailing newline of the text.
pub open spec fn blocks_text(bs: Seq<BlockDesc>) -> Seq<char> {
    join_lines(blocks_lines(bs))
}

pub proof fn lemma_block_commits_props(bs: Seq<BlockDesc>)
    ensures
        block_commits(bs).len() == bs.len(),
        forall|i: int| 0 <= i < bs.len() ==> block_commits(bs)[i] == block_commit(bs[i]),
    decreases bs.len(),
{
    if bs.len() > 0 {
        lemma_block_commits_props(bs.drop_first());
        assert forall|i: int| 0 <= i < bs.len() implies block_commits(bs)[i] == block_commit(
            bs[i],
        ) by {
            if i > 0 {
                assert(block_commits(bs)[i] == block_commits(bs.drop_first())[i - 1]);
                assert(bs.drop_first()[i - 1] == bs[i]);
            }
        }
    }
}

/// Law: a well-formed log — one block per commit, each block a header
/// line, numstat lines with pairwise distinct paths, and a closing blank
/// line — parses to exactly one commit per block, in block order, each
/// carrying its block's header tokens and file changes.
pub proof fn lemma_parse_blocks(bs: Seq<BlockDesc>)
    requires
        bs.len() >= 1,
        forall|i: int| 0 <= i < bs.len() ==> wf_block(#[trigger] bs[i]),
    ensures
        spec_parse(blocks_text(bs)) == block_commits(bs),
        block_commits(bs).len() == bs.len(),
        forall|i: int| 0 <= i < bs.len() ==> block_commits(bs)[i] == block_commit(bs[i]),
{
    lemma_blocks_lines_no_newline(bs);
    assert(blocks_lines(bs).len() >= 1);
    lemma_split_join(blocks_lines(bs));
    lemma_run_blocks(init_model(), bs);
    assert(Seq::<CommitModel>::empty() + block_commits(bs) =~= block_commits(bs));
    lemma_block_commits_props(bs);
}

/// Law: a single well-formed block parses to exactly one commit whose
/// revision, author, timestamp and message are the header tokens, and
/// whose changes has one entry per numstat line.
pub proof fn lemma_parse_single_block(b: BlockDesc)
    requires
        wf_block(b),
    ensures
        spec_parse(join_lines(block_lines(b))).len() == 1,
        spec_parse(join_lines(block_lines(b)))[0] == block_commit(b),
        block_commit(b).rev == b.rev,
        block_commit(b).author == b.author,
        block_commit(b).date == digits_val(b.date),
        block_commit(b).message == b.message,
        block_commit(b).changes.len() == b.files.len(),
{
    let bs = seq![b];
    assert(bs[0] == b);
    assert(bs.drop_first() =~= Seq::<BlockDesc>::empty());
    assert(blocks_lines(Seq::<BlockDesc>::empty()) == Seq::<Seq<char>>::empty());
    assert(blocks_lines(bs) == block_lines(b) + Seq::<Seq<char>>::empty());
    assert(blocks_lines(bs) =~= block_lines(b));
    lemma_parse_blocks(bs);
    lemma_numline_changes_len(b.files);
}

/// Law: a final block whose closing blank line is missing is not emitted;
/// the parse returns exactly the commits of the blocks closed before it.
pub proof fn lemma_unterminated_block_dropped(bs: Seq<BlockDesc>, last: BlockDesc)
    requires
        forall|i: int| 0 <= i < bs.len() ==> wf_block(#[trigger] bs[i]),
        wf_block(last),
    ensures
        spec_parse(join_lines(blocks_lines(bs) + open_block_lines(last))) == block_commits(bs),
{
    let ls = blocks_lines(bs) + open_block_lines(last);
    lemma_blocks_lines_no_newline(bs);
    lemma_header_no_newline(last);
    lemma_numline_texts_no_newline(last.files);
    lemma_numline_texts_len(last.files);
    assert forall|i: int| 0 <= i < ls.len() implies no_newline(#[trigger] ls[i]) by {
        if i < blocks_lines(bs).len() {
            assert(ls[i] == blocks_lines(bs)[i]);
        } else {
            let k = i - blocks_lines(bs).len();
            assert(ls[i] == open_block_lines(last)[k]);
            if k == 0 {
                assert(open_block_lines(last)[0] == header_text(last));
            } else {
                assert(open_block_lines(last)[k] == numline_texts(last.files)[k - 1]);
            }
        }
    }
    assert(ls.len() >= 1);
    lemma_split_join(ls);
    lemma_run_concat(init_model(), blocks_lines(bs), open_block_lines(last));
    lemma_run_blocks(init_model(), bs);
    let st1 = ParserModel {
        current: None,
        pending: Seq::empty(),
        commits: Seq::<CommitModel>::empty() + block_commits(bs),
    };
    lemma_run_open_block(st1, last);
    assert(Seq::<CommitModel>::empty() + block_commits(bs) =~= block_commits(bs));
}

/// Law: the parse is a function of the text alone — equal texts always
/// yield equal commit sequences, so re-parsing the same text twice gives
/// structurally equal results.
pub proof fn lemma_parse_deterministic(t1: Seq<char>, t2: Seq<char>)
    requires
        t1 == t2,
    ensures
        spec_parse(t1) == spec_parse(t2),
{
}

// ---------------------------------------------------------------------------
// Invariants of the accumulation state
// ---------------------------------------------------------------------------

/// File paths are unique keys of the pending accumulation.
pub open spec fn unique_files(p: Seq<ChangeModel>) -> bool {
    forall|k1: int, k2: int| 0 <= k1 < k2 < p.len() ==> p[k1].file != p[k2].file
}

pub proof fn lemma_change_index_none_forall(p: Seq<ChangeModel>, f: Seq<char>, k: int)
    requires
        change_index_of(p, f, k) is None,
    ensures
        forall|j: int| k <= j < p.len() ==> p[j].file != f,
    decreases p.len() - k,
{
    if k < p.len() {
        lemma_change_index_none_forall(p, f, k + 1);
    }
}

pub proof fn lemma_change_index_in_range(p: Seq<ChangeModel>, f: Seq<char>, k: int)
    requires
        change_index_of(p, f, k) is Some,
    ensures
        k <= change_index_of(p, f, k)->0 < p.len(),
        p[change_index_of(p, f, k)->0].file == f,
    decreases p.len() - k,
{
    if k < p.len() && p[k].file != f {
        lemma_change_index_in_range(p, f, k + 1);
    }
}

/// Law: within one accumulation window file paths stay unique — an entry
/// with a path already pending overwrites it, an entry with a new path is
/// appended — so every step of the parser preserves key uniqueness.
pub proof fn lemma_step_preserves_unique_files(st: ParserModel, l: Seq<char>)
    requires
        unique_files(st.pending),
    ensures
        unique_files(spec_step(st, l).pending),
{
    let p = st.pending;
    if find_rev(l, 0) is Some {
    } else if find_numstat(l, 0) is Some {
        match numstat_change(l) {
            Some(fc) => {
                match change_index_of(p, fc.file, 0) {
                    Some(k) => {
                        lemma_change_index_in_range(p, fc.file, 0);
                        assert(unique_files(p.update(k, fc)));
                    },
                    None => {
                        lemma_change_index_none_forall(p, fc.file, 0);
                        assert(unique_files(p.push(fc)));
                    },
                }
            },
            None => {},
        }
    }
}

/// Law: commits are immutable once appended — a step never changes or
/// removes an emitted commit, it can only append one.
pub proof fn lemma_step_extends_commits(st: ParserModel, l: Seq<char>)
    ensures
        st.commits.len() <= spec_step(st, l).commits.len(),
        forall|i: int| 0 <= i < st.commits.len() ==> spec_step(st, l).commits[i] == st.commits[i],
{
}

} // verus!
