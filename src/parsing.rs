//! Stream correlation and statistics extraction: the runners announced on the
//! diagnostic stream, the result blocks of the result stream, and their
//! grouping by package.

use crate::grammar::{
    announcement_exec, announcement_of, blank_end, blank_end_exec, header_count,
    header_count_exec, header_text, header_text_exec, is_header, is_outcome, outcome_end_exec, summary_exec, summary_of,
    Announced, Announcement, Summary,
};
use crate::order::{same_chars, sort_lines, sorted};
use crate::text::{
    append_chars, chars_of, copy_range, is_blank, lines, split_lines, string_of, views,
};
use vstd::prelude::*;

verus! {

/// Types of a test runner.
#[derive(Debug, Hash, PartialEq, Eq, Clone, Copy, Structural)]
pub enum TestType {
    UnitLib,
    UnitBin,
    Doc,
    Tests,
    Examples,
    Benches,
}

/// Source location and binary name of a test runner.
#[derive(Debug, Hash, PartialEq, Eq, Clone)]
pub struct Src {
    /// Path of the source (for doc tests: the documented package), relative
    /// to its package.
    pub src_path: String,
    /// The package name recovered from the runner's binary path, without the
    /// `target/...` prefix nor the hash suffix.
    pub bin_name: String,
}

/// A test runner, determined by its type and its source and binary paths.
#[derive(Debug, Hash, PartialEq, Eq, Clone)]
pub struct TestRunner {
    pub ty: TestType,
    pub src: Src,
}

/// Statistics of a block, a runner, a package or a whole run.
#[derive(Debug, PartialEq, Eq, Clone, Copy, Structural)]
pub struct Stats {
    pub ok: bool,
    pub total: u32,
    pub passed: u32,
    pub failed: u32,
    pub ignored: u32,
    pub measured: u32,
    pub filtered_out: u32,
    /// Elapsed time, in nanoseconds.
    pub finished_in: u64,
}

/// Why the two streams could not be parsed.
#[derive(Debug, PartialEq, Eq, Clone)]
pub enum Error {
    /// The diagnostic stream announces `runners` runners, the result stream
    /// holds `blocks` blocks.
    StructuralMismatch { runners: usize, blocks: usize },
    /// A runner's source path has no known first segment.
    UnclassifiablePath { path: String },
    /// A runner's binary path is not `target/<profile>/deps/<package>-<hash>`.
    MalformedBinaryPath { binary: String },
    /// The block of this index has no summary line.
    MissingSummary { block: usize },
    /// The block of this index declares `declared` tests and lists `found`.
    CountMismatch { block: usize, declared: u32, found: usize },
    /// The result stream holds no section header.
    EmptyInput,
}

/// The statistics of nothing: no test, and success.
pub open spec fn zero_stats() -> Stats {
    Stats {
        ok: true,
        total: 0,
        passed: 0,
        failed: 0,
        ignored: 0,
        measured: 0,
        filtered_out: 0,
        finished_in: 0,
    }
}

/// Two statistics merged: counts and times add up (saturating at the type's
/// maximum), and `ok` holds where both hold.
pub open spec fn merged(a: Stats, b: Stats) -> Stats {
    Stats {
        ok: a.ok && b.ok,
        total: a.total.saturating_add(b.total),
        passed: a.passed.saturating_add(b.passed),
        failed: a.failed.saturating_add(b.failed),
        ignored: a.ignored.saturating_add(b.ignored),
        measured: a.measured.saturating_add(b.measured),
        filtered_out: a.filtered_out.saturating_add(b.filtered_out),
        finished_in: a.finished_in.saturating_add(b.finished_in),
    }
}

/// All the statistics `s` merged, in order.
pub open spec fn merge_all(s: Seq<Stats>) -> Stats
    decreases s.len(),
{
    if s.len() == 0 {
        zero_stats()
    } else {
        merged(merge_all(s.drop_last()), s.last())
    }
}

/// The statistics of each runner of `ds`.
pub open spec fn runner_stats(ds: Seq<Data>) -> Seq<Stats> {
    ds.map_values(|d: Data| d.info.stats)
}

impl Stats {
    /// The two statistics merged; see [`merged`].
    pub fn merge(&self, rhs: &Stats) -> (r: Stats)
        ensures
            r == merged(*self, *rhs),
    {
        Stats {
            ok: self.ok && rhs.ok,
            total: self.total.saturating_add(rhs.total),
            passed: self.passed.saturating_add(rhs.passed),
            failed: self.failed.saturating_add(rhs.failed),
            ignored: self.ignored.saturating_add(rhs.ignored),
            measured: self.measured.saturating_add(rhs.measured),
            filtered_out: self.filtered_out.saturating_add(rhs.filtered_out),
            finished_in: self.finished_in.saturating_add(rhs.finished_in),
        }
    }

    /// Merges `rhs` into `self`.
    pub fn absorb(&mut self, rhs: &Stats)
        ensures
            *final(self) == merged(*old(self), *rhs),
    {
        *self = self.merge(rhs);
    }
}

impl Default for Stats {
    fn default() -> (r: Stats)
        ensures
            r == zero_stats(),
    {
        Stats {
            ok: true,
            total: 0,
            passed: 0,
            failed: 0,
            ignored: 0,
            measured: 0,
            filtered_out: 0,
            finished_in: 0,
        }
    }
}

/// The parsed text of one result block.
#[derive(Debug)]
pub struct ParsedCargoTestOutput {
    /// The section header: `running <N> test[s]`.
    pub head: String,
    /// The outcome lines, sorted.
    pub tree: Vec<String>,
    /// The text between the last outcome line and the summary line, trimmed.
    pub detail: String,
}

/// All that a test runner reported.
#[derive(Debug)]
pub struct TestInfo {
    /// The block's text in the result stream: from its header to the next
    /// one, or to the end (the whole stream where it holds one block).
    pub raw: String,
    pub stats: Stats,
    pub parsed: ParsedCargoTestOutput,
}

/// The contents of each string.
pub open spec fn string_views(v: Seq<String>) -> Seq<Seq<char>> {
    v.map_values(|s: String| s@)
}

// ---------------------------------------------------------------- result blocks
// A block is a run of lines whose first line is a section header; `b[1..]`
// is its body.

/// The outcome lines among `b[1..j]`, in order.
pub open spec fn outcomes_upto(b: Seq<Seq<char>>, j: int) -> Seq<Seq<char>>
    decreases j,
{
    if j <= 1 || j > b.len() {
        seq![]
    } else if is_outcome(b[j - 1]) {
        outcomes_upto(b, j - 1).push(b[j - 1])
    } else {
        outcomes_upto(b, j - 1)
    }
}

/// The outcome lines of block `b`, in order.
pub open spec fn outcomes(b: Seq<Seq<char>>) -> Seq<Seq<char>> {
    outcomes_upto(b, b.len() as int)
}

/// The index of the last outcome line among `b[1..j]`, or 0.
pub open spec fn last_outcome_upto(b: Seq<Seq<char>>, j: int) -> int
    decreases j,
{
    if j <= 1 || j > b.len() {
        0
    } else if is_outcome(b[j - 1]) {
        j - 1
    } else {
        last_outcome_upto(b, j - 1)
    }
}

/// Where the failure detail of block `b` starts: past its last outcome line.
pub open spec fn detail_start(b: Seq<Seq<char>>) -> int {
    last_outcome_upto(b, b.len() as int) + 1
}

/// The index of the first summary line in `b[i..]`, or `b.len()`.
pub open spec fn summary_index(b: Seq<Seq<char>>, i: int) -> int
    decreases b.len() - i,
{
    if i < 0 || i >= b.len() {
        b.len() as int
    } else if summary_of(b[i]) is Some {
        i
    } else {
        summary_index(b, i + 1)
    }
}

/// The index of block `b`'s summary line: the first one past its outcome
/// lines (or `b.len()`, where there is none).
pub open spec fn block_summary_index(b: Seq<Seq<char>>) -> int {
    summary_index(b, detail_start(b))
}

/// The lines `ls` joined with `'\n'`.
pub open spec fn join_lines(ls: Seq<Seq<char>>) -> Seq<char>
    decreases ls.len(),
{
    if ls.len() == 0 {
        seq![]
    } else if ls.len() == 1 {
        ls[0]
    } else {
        join_lines(ls.drop_last()) + seq!['\n'] + ls.last()
    }
}

/// The start of the run of blank characters that ends at `j`.
pub open spec fn back_end(s: Seq<char>, j: int) -> int
    decreases j,
{
    if j <= 0 || j > s.len() || !is_blank(s[j - 1]) {
        j
    } else {
        back_end(s, j - 1)
    }
}

/// `s` without its leading and trailing blanks.
pub open spec fn trim(s: Seq<char>) -> Seq<char> {
    let u = s.subrange(blank_end(s, 0), s.len() as int);
    u.subrange(0, back_end(u, u.len() as int))
}

/// The failure detail of block `b`.
pub open spec fn detail_of(b: Seq<Seq<char>>) -> Seq<char> {
    trim(join_lines(b.subrange(detail_start(b), block_summary_index(b))))
}

/// The statistics of block `b`, which has a summary line: `total` counts its
/// outcome lines, the rest comes from the summary.
pub open spec fn block_stats(b: Seq<Seq<char>>) -> Stats {
    let s = summary_of(b[block_summary_index(b)])->Some_0;
    Stats {
        ok: s.ok,
        total: outcomes(b).len() as u32,
        passed: s.passed,
        failed: s.failed,
        ignored: s.ignored,
        measured: s.measured,
        filtered_out: s.filtered_out,
        finished_in: s.nanos,
    }
}

/// Why block `b` (of index `k`) cannot be parsed, if it cannot.
pub open spec fn block_failure(b: Seq<Seq<char>>, k: int) -> Option<Error> {
    if block_summary_index(b) >= b.len() {
        Some(Error::MissingSummary { block: k as usize })
    } else if outcomes(b).len() != header_count(b[0])->Some_0 {
        Some(
            Error::CountMismatch {
                block: k as usize,
                declared: header_count(b[0])->Some_0 as u32,
                found: outcomes(b).len() as usize,
            },
        )
    } else {
        None
    }
}

/// `info` is what block `b` reports.
pub open spec fn describes(info: TestInfo, b: Seq<Seq<char>>) -> bool {
    &&& info.parsed.head@ == header_text(b[0])
    &&& sorted(string_views(info.parsed.tree@))
    &&& string_views(info.parsed.tree@).to_multiset() == outcomes(b).to_multiset()
    &&& info.parsed.detail@ == detail_of(b)
    &&& info.stats == block_stats(b)
}

/// The indices of the section headers among `ls[..j]`.
pub open spec fn headers_upto(ls: Seq<Seq<char>>, j: int) -> Seq<int>
    decreases j,
{
    if j <= 0 || j > ls.len() {
        seq![]
    } else if is_header(ls[j - 1]) {
        headers_upto(ls, j - 1).push(j - 1)
    } else {
        headers_upto(ls, j - 1)
    }
}

/// The indices of the section headers among the lines `ls`.
pub open spec fn headers(ls: Seq<Seq<char>>) -> Seq<int> {
    headers_upto(ls, ls.len() as int)
}

/// Block `k` of the lines `ls` whose headers stand at `hs`: from its header
/// to the next one, or to the end.
pub open spec fn block_lines(ls: Seq<Seq<char>>, hs: Seq<int>, k: int) -> Seq<Seq<char>> {
    ls.subrange(hs[k], if k + 1 < hs.len() { hs[k + 1] } else { ls.len() as int })
}

/// The failure of the first block from `k` on that cannot be parsed.
pub open spec fn first_failure(ls: Seq<Seq<char>>, hs: Seq<int>, k: int) -> Option<Error>
    decreases hs.len() - k,
{
    if k < 0 || k >= hs.len() {
        None
    } else {
        match block_failure(block_lines(ls, hs, k), k) {
            Some(e) => Some(e),
            None => first_failure(ls, hs, k + 1),
        }
    }
}

/// The blocks of the result stream `out`.
pub open spec fn stdout_blocks(out: Seq<char>) -> Seq<Seq<Seq<char>>> {
    let ls = lines(out);
    let hs = headers(ls);
    Seq::new(hs.len(), |k: int| block_lines(ls, hs, k))
}

/// The text of block `k` of the result stream `out`: from its header to the
/// next one (line break included), or to the end; the whole stream where
/// it holds one block.
pub open spec fn stdout_raw(out: Seq<char>, k: int) -> Seq<char> {
    let bs = stdout_blocks(out);
    if bs.len() == 1 {
        out
    } else if k + 1 < bs.len() {
        join_lines(bs[k]) + seq!['\n']
    } else {
        join_lines(bs[k])
    }
}

/// Why the result stream `out` cannot be parsed, if it cannot.
pub open spec fn stdout_failure(out: Seq<char>) -> Option<Error> {
    let ls = lines(out);
    if headers(ls).len() == 0 {
        Some(Error::EmptyInput)
    } else {
        first_failure(ls, headers(ls), 0)
    }
}

pub proof fn lemma_headers(ls: Seq<Seq<char>>, j: int)
    requires
        0 <= j <= ls.len(),
    ensures
        forall|k: int| 0 <= k < headers_upto(ls, j).len() ==> 0 <= #[trigger] headers_upto(ls, j)[k] < j
            && is_header(ls[headers_upto(ls, j)[k]]),
        forall|k1: int, k2: int|
            0 <= k1 < k2 < headers_upto(ls, j).len() ==> headers_upto(ls, j)[k1] < headers_upto(
                ls,
                j,
            )[k2],
    decreases j,
{
    if j > 0 {
        lemma_headers(ls, j - 1);
        let p = headers_upto(ls, j - 1);
        let h = headers_upto(ls, j);
        if is_header(ls[j - 1]) {
            assert(h == p.push(j - 1));
        } else {
            assert(h == p);
        }
        assert forall|k: int| 0 <= k < h.len() implies 0 <= #[trigger] h[k] < j && is_header(
            ls[h[k]],
        ) by {
            if k < p.len() {
                assert(h[k] == p[k]);
            }
        }
        assert forall|k1: int, k2: int| 0 <= k1 < k2 < h.len() implies h[k1] < h[k2] by {
            if k2 < p.len() {
                assert(h[k1] == p[k1] && h[k2] == p[k2]);
            } else {
                assert(h[k1] == p[k1]);
            }
        }
    }
}

proof fn lemma_summary_index(b: Seq<Seq<char>>, i: int)
    requires
        0 <= i <= b.len(),
    ensures
        i <= summary_index(b, i) <= b.len(),
        summary_index(b, i) < b.len() ==> summary_of(b[summary_index(b, i)]) is Some,
    decreases b.len() - i,
{
    if i < b.len() {
        lemma_summary_index(b, i + 1);
    }
}

/// The lines `ls[from..to]` joined with `'\n'`.
fn join_range(ls: &Vec<Vec<char>>, from: usize, to: usize) -> (r: Vec<char>)
    requires
        from <= to <= ls.len(),
    ensures
        r@ == join_lines(views(ls@).subrange(from as int, to as int)),
{
    let mut r: Vec<char> = Vec::new();
    let mut i: usize = from;
    assert(views(ls@).subrange(from as int, from as int) =~= seq![]);
    while i < to
        invariant
            from <= i <= to <= ls.len(),
            r@ == join_lines(views(ls@).subrange(from as int, i as int)),
        decreases to - i,
    {
        let ghost prev = views(ls@).subrange(from as int, i as int);
        let ghost next = views(ls@).subrange(from as int, i + 1);
        assert(next.drop_last() =~= prev);
        assert(next.last() == ls@[i as int]@);
        if i > from {
            r.push('\n');
        } else {
            assert(next =~= seq![ls@[i as int]@]);
            assert(r@ =~= seq![]);
        }
        append_chars(&mut r, &ls[i]);
        i += 1;
        assert(r@ =~= join_lines(next));
    }
    r
}

/// `s` without its leading and trailing blanks; see [`trim`].
fn trim_exec(s: &Vec<char>) -> (r: Vec<char>)
    ensures
        r@ == trim(s@),
{
    let a = blank_end_exec(s, 0);
    proof {
        crate::grammar::lemma_blank_end(s@, 0);
    }
    let u = copy_range(s, a, s.len());
    let mut j: usize = u.len();
    while j > 0 && crate::text::blank(u[j - 1])
        invariant
            j <= u.len(),
            back_end(u@, u.len() as int) == back_end(u@, j as int),
        decreases j,
    {
        j -= 1;
    }
    copy_range(&u, 0, j)
}

/// The strings made of each line.
fn strings_of(v: &Vec<Vec<char>>) -> (r: Vec<String>)
    ensures
        string_views(r@) == views(v@),
{
    let mut r: Vec<String> = Vec::new();
    let mut i: usize = 0;
    while i < v.len()
        invariant
            i <= v.len(),
            string_views(r@) == views(v@).subrange(0, i as int),
        decreases v.len() - i,
    {
        let s = string_of(&v[i]);
        let ghost before = string_views(r@);
        r.push(s);
        assert(string_views(r@) =~= before.push(v@[i as int]@));
        i += 1;
        assert(string_views(r@) =~= views(v@).subrange(0, i as int));
    }
    assert(views(v@).subrange(0, i as int) =~= views(v@));
    r
}

/// Parses block `k`, the lines `ls[a..b]`, whose first line is a header.
#[verifier::rlimit(60)]
fn parse_block(ls: &Vec<Vec<char>>, a: usize, b: usize, k: usize) -> (r: Result<TestInfo, Error>)
    requires
        a < b <= ls.len(),
        is_header(ls@[a as int]@),
    ensures
        ({
            let blk = views(ls@).subrange(a as int, b as int);
            match block_failure(blk, k as int) {
                Some(e) => r == Err::<TestInfo, Error>(e),
                None => r matches Ok(info) && describes(info, blk) && info.raw@ == join_lines(blk)
                    + if b < ls.len() {
                    seq!['\n']
                } else {
                    Seq::<char>::empty()
                },
            }
        }),
{
    let ghost blk = views(ls@).subrange(a as int, b as int);
    assert(blk[0] == ls@[a as int]@);
    let n = header_count_exec(&ls[a]).unwrap();
    let mut outs: Vec<Vec<char>> = Vec::new();
    let mut last: usize = a;
    let mut i: usize = a + 1;
    while i < b
        invariant
            a < i <= b <= ls.len(),
            a <= last < i,
            blk == views(ls@).subrange(a as int, b as int),
            views(outs@) == outcomes_upto(blk, i - a),
            last - a == last_outcome_upto(blk, i - a),
        decreases b - i,
    {
        assert(blk[i - a] == ls@[i as int]@);
        if outcome_end_exec(&ls[i]).is_some() {
            let line = copy_range(&ls[i], 0, ls[i].len());
            assert(line@ =~= ls@[i as int]@);
            let ghost before = views(outs@);
            outs.push(line);
            assert(views(outs@) =~= before.push(line@));
            last = i;
        }
        i += 1;
    }
    let ds = last + 1;
    let mut s: usize = ds;
    proof {
        lemma_summary_index(blk, ds - a);
    }
    while s < b && summary_exec(&ls[s]).is_none()
        invariant
            a < ds <= s <= b <= ls.len(),
            blk == views(ls@).subrange(a as int, b as int),
            summary_index(blk, ds - a) == summary_index(blk, s - a),
        decreases b - s,
    {
        assert(blk[s - a] == ls@[s as int]@);
        s += 1;
    }
    if s == b {
        return Err(Error::MissingSummary { block: k });
    }
    assert(blk[s - a] == ls@[s as int]@);
    let sm = summary_exec(&ls[s]).unwrap();
    if outs.len() != n as usize {
        return Err(Error::CountMismatch { block: k, declared: n, found: outs.len() });
    }
    let joined = join_range(ls, ds, s);
    assert(views(ls@).subrange(ds as int, s as int) =~= blk.subrange(ds - a, s - a));
    let detail = string_of(&trim_exec(&joined));
    let sorted_lines = sort_lines(outs);
    let tree = strings_of(&sorted_lines);
    let mut raw_chars = join_range(ls, a, b);
    if b < ls.len() {
        raw_chars.push('\n');
    }
    let raw = string_of(&raw_chars);
    let head = string_of(&header_text_exec(&ls[a]));
    let stats = Stats {
        ok: sm.ok,
        total: n,
        passed: sm.passed,
        failed: sm.failed,
        ignored: sm.ignored,
        measured: sm.measured,
        filtered_out: sm.filtered_out,
        finished_in: sm.nanos,
    };
    Ok(TestInfo { raw, stats, parsed: ParsedCargoTestOutput { head, tree, detail } })
}


/// Parses the result stream: one [`TestInfo`] per block, in order.
#[verifier::rlimit(80)]
pub fn parse_stdout(stdout: &str) -> (r: Result<Vec<TestInfo>, Error>)
    ensures
        match stdout_failure(stdout@) {
            Some(e) => r == Err::<Vec<TestInfo>, Error>(e),
            None => r is Ok,
        },
        r matches Ok(v) ==> v.len() == stdout_blocks(stdout@).len() && forall|k: int|
            0 <= k < v.len() ==> describes(#[trigger] v[k], stdout_blocks(stdout@)[k])
                && v[k].raw@ == stdout_raw(stdout@, k),
{
    let text = chars_of(stdout);
    let ls = split_lines(&text);
    let ghost lv = views(ls@);
    assert(lv == lines(stdout@));
    let mut hs: Vec<usize> = Vec::new();
    let mut i: usize = 0;
    while i < ls.len()
        invariant
            i <= ls.len(),
            lv == views(ls@),
            hs@.len() == headers_upto(lv, i as int).len(),
            forall|k: int| 0 <= k < hs@.len() ==> hs@[k] as int == headers_upto(lv, i as int)[k],
        decreases ls.len() - i,
    {
        assert(lv[i as int] == ls@[i as int]@);
        if header_count_exec(&ls[i]).is_some() {
            hs.push(i);
        }
        i += 1;
    }
    let ghost hv = headers(lv);
    proof {
        lemma_headers(lv, lv.len() as int);
    }
    if hs.len() == 0 {
        assert(hv.len() == 0);
        assert(stdout_failure(stdout@) == Some(Error::EmptyInput));
        return Err(Error::EmptyInput);
    }
    assert(stdout_failure(stdout@) == first_failure(lv, hv, 0));
    let mut out: Vec<TestInfo> = Vec::new();
    let mut k: usize = 0;
    while k < hs.len()
        invariant
            k <= hs.len(),
            lv == views(ls@),
            lv == lines(stdout@),
            hv == headers(lv),
            hs@.len() == hv.len(),
            forall|j: int| 0 <= j < hs@.len() ==> hs@[j] as int == hv[j],
            forall|j: int| 0 <= j < hv.len() ==> 0 <= #[trigger] hv[j] < lv.len() && is_header(lv[hv[j]]),
            forall|j1: int, j2: int| 0 <= j1 < j2 < hv.len() ==> hv[j1] < hv[j2],
            first_failure(lv, hv, 0) == first_failure(lv, hv, k as int),
            out.len() == k,
            forall|j: int| 0 <= j < k ==> describes(#[trigger] out@[j], block_lines(lv, hv, j))
                && out@[j].raw@ == stdout_raw(stdout@, j),
            text@ == stdout@,
        decreases hs.len() - k,
    {
        let a = hs[k];
        let b = if k + 1 < hs.len() {
            hs[k + 1]
        } else {
            ls.len()
        };
        assert(hv[k as int] == a);
        assert(a < b);
        assert(views(ls@).subrange(a as int, b as int) == block_lines(lv, hv, k as int));
        assert(stdout_blocks(stdout@)[k as int] == block_lines(lv, hv, k as int));
        assert(k + 1 < hs.len() ==> b < ls.len());
        match parse_block(&ls, a, b, k) {
            Ok(info) => {
                let mut info = info;
                if hs.len() == 1 {
                    info.raw = string_of(&text);
                }
                out.push(info);
            },
            Err(e) => {
                assert(first_failure(lv, hv, k as int) == Some(e));
                assert(stdout_failure(stdout@) == Some(e));
                return Err(e);
            },
        }
        k += 1;
    }
    assert(first_failure(lv, hv, k as int) is None);
    assert(stdout_failure(stdout@) is None);
    assert forall|j: int| 0 <= j < out.len() implies describes(
        #[trigger] out@[j],
        stdout_blocks(stdout@)[j],
    ) && out@[j].raw@ == stdout_raw(stdout@, j) by {
        assert(stdout_blocks(stdout@)[j] == block_lines(lv, hv, j));
    }
    Ok(out)
}

// ---------------------------------------------------------------- runner announcements

pub open spec fn SRC() -> Seq<char> {
    seq!['s', 'r', 'c']
}

pub open spec fn LIB_RS() -> Seq<char> {
    seq!['l', 'i', 'b', '.', 'r', 's']
}

pub open spec fn TESTS() -> Seq<char> {
    seq!['t', 'e', 's', 't', 's']
}

pub open spec fn EXAMPLES() -> Seq<char> {
    seq!['e', 'x', 'a', 'm', 'p', 'l', 'e', 's']
}

pub open spec fn BENCHES() -> Seq<char> {
    seq!['b', 'e', 'n', 'c', 'h', 'e', 's']
}

pub open spec fn TARGET() -> Seq<char> {
    seq!['t', 'a', 'r', 'g', 'e', 't']
}

/// The end of the path segment that starts at `i`: the next `/`, or the end.
pub open spec fn seg_end(p: Seq<char>, i: int) -> int
    decreases p.len() - i,
{
    if i < 0 || i >= p.len() || p[i] == '/' {
        i
    } else {
        seg_end(p, i + 1)
    }
}

/// Past the run of `/` that starts at `i`.
pub open spec fn skip_slashes(p: Seq<char>, i: int) -> int
    decreases p.len() - i,
{
    if i < 0 || i >= p.len() || p[i] != '/' {
        i
    } else {
        skip_slashes(p, i + 1)
    }
}

/// The start of path segment `k` of `p` (segments are separated by runs of `/`).
pub open spec fn seg_start(p: Seq<char>, k: nat) -> int
    decreases k,
{
    if k == 0 {
        0
    } else {
        skip_slashes(p, seg_end(p, seg_start(p, (k - 1) as nat)))
    }
}

pub open spec fn has_segment(p: Seq<char>, k: nat) -> bool {
    seg_start(p, k) < p.len()
}

/// Path segment `k` of `p`.
pub open spec fn segment(p: Seq<char>, k: nat) -> Seq<char> {
    p.subrange(seg_start(p, k), seg_end(p, seg_start(p, k)))
}

/// Path `p` has segment `k`, and it is `lit`.
pub open spec fn segment_is(p: Seq<char>, k: nat, lit: Seq<char>) -> bool {
    has_segment(p, k) && segment(p, k) == lit
}

/// The type of a runner announced as `Running [unittests ]<path>`.
pub open spec fn kind_of(unit: bool, path: Seq<char>) -> Option<TestType> {
    if unit {
        if segment_is(path, 0, SRC()) && segment_is(path, 1, LIB_RS()) {
            Some(TestType::UnitLib)
        } else {
            Some(TestType::UnitBin)
        }
    } else if segment_is(path, 0, TESTS()) {
        Some(TestType::Tests)
    } else if segment_is(path, 0, EXAMPLES()) {
        Some(TestType::Examples)
    } else if segment_is(path, 0, BENCHES()) {
        Some(TestType::Benches)
    } else {
        None
    }
}

/// The index of the first `-` in `s`, or its length.
pub open spec fn dash_index(s: Seq<char>, i: int) -> int
    decreases s.len() - i,
{
    if i < 0 || i >= s.len() || s[i] == '-' {
        i
    } else {
        dash_index(s, i + 1)
    }
}

/// The package name in a binary path `target/<profile>/deps/<package>-<hash>`.
pub open spec fn package_of(bin: Seq<char>) -> Option<Seq<char>> {
    if segment_is(bin, 0, TARGET()) && has_segment(bin, 3) {
        let s = segment(bin, 3);
        let d = dash_index(s, 0);
        if d < s.len() {
            Some(s.subrange(0, d))
        } else {
            None
        }
    } else {
        None
    }
}

/// What an announcement classifies as.
pub enum Verdict {
    Runner(TestType, Seq<char>, Seq<char>),
    BadPath(Seq<char>),
    BadBinary(Seq<char>),
}

/// The runner (type, source path, package name) that `a` announces.
pub open spec fn classify(a: Announced) -> Verdict {
    match a {
        Announced::Doc { name } => Verdict::Runner(TestType::Doc, name, name),
        Announced::Running { unit, path, binary } => match kind_of(unit, path) {
            None => Verdict::BadPath(path),
            Some(t) => match package_of(binary) {
                None => Verdict::BadBinary(binary),
                Some(pkg) => Verdict::Runner(t, path, pkg),
            },
        },
    }
}

/// `r` is the runner of verdict `v`.
pub open spec fn runner_is(r: TestRunner, v: Verdict) -> bool {
    match v {
        Verdict::Runner(t, path, name) => r.ty == t && r.src.src_path@ == path && r.src.bin_name@
            == name,
        _ => false,
    }
}

/// `e` is the error of verdict `v`.
pub open spec fn error_is(e: Error, v: Verdict) -> bool {
    match v {
        Verdict::BadPath(p) => e matches Error::UnclassifiablePath { path } && path@ == p,
        Verdict::BadBinary(b) => e matches Error::MalformedBinaryPath { binary } && binary@ == b,
        _ => false,
    }
}

/// The announcements among the lines `ls[..j]`.
pub open spec fn announcements_upto(ls: Seq<Seq<char>>, j: int) -> Seq<Announced>
    decreases j,
{
    if j <= 0 || j > ls.len() {
        seq![]
    } else {
        match announcement_of(ls[j - 1]) {
            Some(a) => announcements_upto(ls, j - 1).push(a),
            None => announcements_upto(ls, j - 1),
        }
    }
}

/// The runner announcements of the diagnostic stream `err`, in order.
pub open spec fn announcements(err: Seq<char>) -> Seq<Announced> {
    announcements_upto(lines(err), lines(err).len() as int)
}

/// The index of the first announcement in `anns[k..]` that does not classify.
pub open spec fn first_bad(anns: Seq<Announced>, k: int) -> int
    decreases anns.len() - k,
{
    if k < 0 || k >= anns.len() {
        anns.len() as int
    } else if classify(anns[k]) is Runner {
        first_bad(anns, k + 1)
    } else {
        k
    }
}

proof fn lemma_first_bad(anns: Seq<Announced>, k: int)
    requires
        0 <= k <= anns.len(),
    ensures
        k <= first_bad(anns, k) <= anns.len(),
        first_bad(anns, k) < anns.len() ==> !(classify(anns[first_bad(anns, k)]) is Runner),
        forall|j: int| k <= j < first_bad(anns, k) ==> classify(anns[j]) is Runner,
    decreases anns.len() - k,
{
    if k < anns.len() {
        lemma_first_bad(anns, k + 1);
    }
}

proof fn lemma_seg_bounds(p: Seq<char>, k: nat)
    ensures
        0 <= seg_start(p, k),
        seg_start(p, k) <= p.len() || k == 0,
    decreases k,
{
    if k > 0 {
        lemma_seg_bounds(p, (k - 1) as nat);
        lemma_seg_end(p, seg_start(p, (k - 1) as nat));
        lemma_skip(p, seg_end(p, seg_start(p, (k - 1) as nat)));
    }
}

proof fn lemma_seg_end(p: Seq<char>, i: int)
    requires
        0 <= i,
    ensures
        i <= seg_end(p, i),
        i <= p.len() ==> seg_end(p, i) <= p.len(),
    decreases p.len() - i,
{
    if i < p.len() && p[i] != '/' {
        lemma_seg_end(p, i + 1);
    }
}

proof fn lemma_skip(p: Seq<char>, i: int)
    requires
        0 <= i,
    ensures
        i <= skip_slashes(p, i),
        i <= p.len() ==> skip_slashes(p, i) <= p.len(),
    decreases p.len() - i,
{
    if i < p.len() && p[i] == '/' {
        lemma_skip(p, i + 1);
    }
}

fn seg_end_exec(p: &Vec<char>, i: usize) -> (r: usize)
    requires
        i <= p.len(),
    ensures
        r == seg_end(p@, i as int),
        i <= r <= p.len(),
{
    let mut j: usize = i;
    while j < p.len() && p[j] != '/'
        invariant
            i <= j <= p.len(),
            seg_end(p@, i as int) == seg_end(p@, j as int),
        decreases p.len() - j,
    {
        j += 1;
    }
    j
}

fn seg_start_exec(p: &Vec<char>, k: usize) -> (r: usize)
    ensures
        r == seg_start(p@, k as nat),
        r <= p.len(),
{
    let mut s: usize = 0;
    let mut j: usize = 0;
    while j < k
        invariant
            j <= k,
            s == seg_start(p@, j as nat),
            s <= p.len(),
        decreases k - j,
    {
        let mut e = seg_end_exec(p, s);
        while e < p.len() && p[e] == '/'
            invariant
                e <= p.len(),
                skip_slashes(p@, seg_end(p@, s as int)) == skip_slashes(p@, e as int),
            decreases p.len() - e,
        {
            e += 1;
        }
        s = e;
        j += 1;
    }
    s
}

/// Path `p` has segment `k`, and it is `lit`; see [`segment_is`].
fn segment_is_exec(p: &Vec<char>, k: usize, lit: &Vec<char>) -> (r: bool)
    ensures
        r == segment_is(p@, k as nat, lit@),
{
    let s = seg_start_exec(p, k);
    if s >= p.len() {
        return false;
    }
    let e = seg_end_exec(p, s);
    let seg = copy_range(p, s, e);
    same_chars(&seg, lit)
}

/// Classifies one announcement; see [`classify`].
fn classify_exec(a: &Announcement) -> (r: Result<TestRunner, Error>)
    ensures
        r matches Ok(t) ==> runner_is(t, classify(a@)),
        r matches Err(e) ==> error_is(e, classify(a@)),
{
    match a {
        Announcement::DocTests { name } => {
            let src_path = string_of(name);
            let bin_name = string_of(name);
            Ok(TestRunner { ty: TestType::Doc, src: Src { src_path, bin_name } })
        },
        Announcement::Running { is_unit, path, binary } => {
            let ty = if *is_unit {
                if segment_is_exec(path, 0, &vec!['s', 'r', 'c']) && segment_is_exec(
                    path,
                    1,
                    &vec!['l', 'i', 'b', '.', 'r', 's'],
                ) {
                    TestType::UnitLib
                } else {
                    TestType::UnitBin
                }
            } else if segment_is_exec(path, 0, &vec!['t', 'e', 's', 't', 's']) {
                TestType::Tests
            } else if segment_is_exec(path, 0, &vec!['e', 'x', 'a', 'm', 'p', 'l', 'e', 's']) {
                TestType::Examples
            } else if segment_is_exec(path, 0, &vec!['b', 'e', 'n', 'c', 'h', 'e', 's']) {
                TestType::Benches
            } else {
                return Err(Error::UnclassifiablePath { path: string_of(path) });
            };
            let bad = Error::MalformedBinaryPath { binary: string_of(binary) };
            if !segment_is_exec(binary, 0, &vec!['t', 'a', 'r', 'g', 'e', 't']) {
                return Err(bad);
            }
            let s = seg_start_exec(binary, 3);
            if s >= binary.len() {
                return Err(bad);
            }
            let e = seg_end_exec(binary, s);
            let seg = copy_range(binary, s, e);
            let mut d: usize = 0;
            while d < seg.len() && seg[d] != '-'
                invariant
                    d <= seg.len(),
                    dash_index(seg@, 0) == dash_index(seg@, d as int),
                decreases seg.len() - d,
            {
                d += 1;
            }
            if d >= seg.len() {
                return Err(bad);
            }
            let name = copy_range(&seg, 0, d);
            Ok(
                TestRunner {
                    ty,
                    src: Src { src_path: string_of(path), bin_name: string_of(&name) },
                },
            )
        },
    }
}

proof fn lemma_announcements(ls: Seq<Seq<char>>, i: int, j: int)
    requires
        0 <= i <= j <= ls.len(),
    ensures
        announcements_upto(ls, i).len() <= announcements_upto(ls, j).len(),
        announcements_upto(ls, j).subrange(0, announcements_upto(ls, i).len() as int)
            == announcements_upto(ls, i),
    decreases j - i,
{
    if j > i {
        lemma_announcements(ls, i, j - 1);
        let p = announcements_upto(ls, j - 1);
        let n = announcements_upto(ls, i).len() as int;
        if let Some(a) = announcement_of(ls[j - 1]) {
            assert(announcements_upto(ls, j) == p.push(a));
            assert(p.push(a).subrange(0, n) =~= p.subrange(0, n));
        }
    } else {
        assert(announcements_upto(ls, j).subrange(0, announcements_upto(ls, j).len() as int)
            =~= announcements_upto(ls, j));
    }
}

/// Parses the diagnostic stream: one [`TestRunner`] per announcement, in
/// order, or the error of the first announcement that does not classify.
pub fn parse_stderr(stderr: &str) -> (r: Result<Vec<TestRunner>, Error>)
    ensures
        ({
            let anns = announcements(stderr@);
            &&& (r is Ok <==> first_bad(anns, 0) == anns.len())
            &&& r matches Err(e) ==> error_is(e, classify(anns[first_bad(anns, 0)]))
            &&& r matches Ok(v) ==> v.len() == anns.len() && forall|k: int|
                0 <= k < v.len() ==> runner_is(#[trigger] v[k], classify(anns[k]))
        }),
{
    let text = chars_of(stderr);
    let ls = split_lines(&text);
    let ghost lv = views(ls@);
    let ghost anns = announcements(stderr@);
    assert(lv == lines(stderr@));
    let mut out: Vec<TestRunner> = Vec::new();
    let mut i: usize = 0;
    proof {
        lemma_first_bad(anns, 0);
    }
    while i < ls.len()
        invariant
            i <= ls.len(),
            lv == views(ls@),
            anns == announcements_upto(lv, lv.len() as int),
            anns == announcements(stderr@),
            lv == lines(stderr@),
            out.len() == announcements_upto(lv, i as int).len(),
            announcements_upto(lv, i as int).len() <= first_bad(anns, 0),
            forall|k: int|
                0 <= k < out.len() ==> announcements_upto(lv, i as int)[k] == anns[k] && runner_is(
                    #[trigger] out@[k],
                    classify(anns[k]),
                ),
        decreases ls.len() - i,
    {
        assert(lv[i as int] == ls@[i as int]@);
        proof {
            lemma_announcements(lv, i as int, i + 1);
            lemma_announcements(lv, i + 1, lv.len() as int);
            lemma_first_bad(anns, 0);
        }
        let ghost n = out.len() as int;
        match announcement_exec(&ls[i]) {
            Some(a) => {
                assert(announcements_upto(lv, i + 1) == announcements_upto(lv, i as int).push(a@));
                assert(announcements_upto(lv, i + 1)[n] == a@);
                assert(anns.subrange(0, announcements_upto(lv, i + 1).len() as int)[n] == anns[n]);
                assert(anns[n] == a@);
                match classify_exec(&a) {
                    Ok(t) => {
                        out.push(t);
                    },
                    Err(e) => {
                        proof {
                            lemma_first_bad(anns, 0);
                        }
                        assert(first_bad(anns, 0) == n);
                        return Err(e);
                    },
                }
            },
            None => {},
        }
        i += 1;
    }
    proof {
        lemma_announcements(lv, i as int, lv.len() as int);
        lemma_first_bad(anns, 0);
    }
    Ok(out)
}


// ---------------------------------------------------------------- correlation

/// The parse of the two streams fails: with the first bad announcement of the
/// diagnostic stream, else with the failure of the result stream, else where
/// the two counts differ.
pub open spec fn streams_ok(err: Seq<char>, out: Seq<char>) -> bool {
    &&& first_bad(announcements(err), 0) == announcements(err).len()
    &&& stdout_failure(out) is None
    &&& announcements(err).len() == stdout_blocks(out).len()
}

/// `r` is the result that the two streams call for, where it is an error.
pub open spec fn streams_error(err: Seq<char>, out: Seq<char>, e: Error) -> bool {
    let anns = announcements(err);
    if first_bad(anns, 0) < anns.len() {
        error_is(e, classify(anns[first_bad(anns, 0)]))
    } else if stdout_failure(out) is Some {
        e == stdout_failure(out)->Some_0
    } else {
        e == Error::StructuralMismatch { runners: anns.len() as usize, blocks: stdout_blocks(out).len() as usize }
    }
}

/// Runner `k` and block `k` of the two streams, paired in `p`.
pub open spec fn pairs_match(err: Seq<char>, out: Seq<char>, p: Seq<(TestRunner, TestInfo)>) -> bool {
    &&& p.len() == announcements(err).len()
    &&& p.len() == stdout_blocks(out).len()
    &&& forall|k: int|
        0 <= k < p.len() ==> runner_is(#[trigger] p[k].0, classify(announcements(err)[k]))
            && describes(p[k].1, stdout_blocks(out)[k])
}

/// Pairs each runner of the diagnostic stream with the block of the result
/// stream that stands at the same rank, runners without tests included.
pub fn parse_cargo_test_with_empty_ones(stderr: &str, stdout: &str) -> (r: Result<
    Vec<(TestRunner, TestInfo)>,
    Error,
>)
    ensures
        r is Ok <==> streams_ok(stderr@, stdout@),
        r matches Err(e) ==> streams_error(stderr@, stdout@, e),
        r matches Ok(p) ==> pairs_match(stderr@, stdout@, p@),
{
    proof {
        lemma_first_bad(announcements(stderr@), 0);
    }
    let mut runners = match parse_stderr(stderr) {
        Ok(v) => v,
        Err(e) => {
            return Err(e);
        },
    };
    let mut infos = match parse_stdout(stdout) {
        Ok(v) => v,
        Err(e) => {
            return Err(e);
        },
    };
    if runners.len() != infos.len() {
        return Err(Error::StructuralMismatch { runners: runners.len(), blocks: infos.len() });
    }
    let ghost r0 = runners@;
    let ghost i0 = infos@;
    let mut out: Vec<(TestRunner, TestInfo)> = Vec::new();
    while runners.len() > 0
        invariant
            runners.len() == infos.len(),
            out.len() + runners.len() == r0.len(),
            r0.len() == i0.len(),
            runners@ == r0.subrange(out.len() as int, r0.len() as int),
            infos@ == i0.subrange(out.len() as int, i0.len() as int),
            forall|k: int| 0 <= k < out.len() ==> (#[trigger] out@[k]).0 == r0[k] && out@[k].1 == i0[k],
        decreases runners.len(),
    {
        let t = runners.remove(0);
        let i = infos.remove(0);
        out.push((t, i));
        assert(runners@ =~= r0.subrange(out.len() as int, r0.len() as int));
        assert(infos@ =~= i0.subrange(out.len() as int, i0.len() as int));
    }
    Ok(out)
}

/// The label of package groups of doc tests.
pub open spec fn DOC_LABEL() -> Seq<char> {
    seq!['D', 'o', 'c', ' ', 'T', 'e', 's', 't', 's']
}

/// The current package once runner `r` is met, where `cur` was the current
/// package before: unit tests name their package, the other runners (doc
/// tests included) leave it as it was.
pub open spec fn next_pkg(cur: Option<Seq<char>>, r: TestRunner) -> Option<Seq<char>> {
    match r.ty {
        TestType::UnitLib | TestType::UnitBin => Some(r.src.bin_name@),
        _ => cur,
    }
}

/// The label of runner `r` when the current package is `cur`: doc tests
/// go under [`DOC_LABEL`], the other runners under the current package.
pub open spec fn label_of(cur: Option<Seq<char>>, r: TestRunner) -> Option<Seq<char>> {
    match r.ty {
        TestType::Doc => Some(DOC_LABEL()),
        _ => cur,
    }
}

/// The current package once the runners of `p[..k]` are met.
pub open spec fn pkg_after(p: Seq<(TestRunner, TestInfo)>, k: int) -> Option<Seq<char>>
    decreases k,
{
    if k <= 0 || k > p.len() {
        None
    } else {
        next_pkg(pkg_after(p, k - 1), p[k - 1].0)
    }
}

/// The pairs of `p[..j]` that hold tests, each with its package label.
pub open spec fn labeled(p: Seq<(TestRunner, TestInfo)>, j: int) -> Seq<(Option<Seq<char>>, Data)>
    decreases j,
{
    if j <= 0 || j > p.len() {
        seq![]
    } else if p[j - 1].1.stats.total == 0 {
        labeled(p, j - 1)
    } else {
        labeled(p, j - 1).push(
            (label_of(pkg_after(p, j), p[j - 1].0), Data { runner: p[j - 1].0, info: p[j - 1].1 }),
        )
    }
}

/// A package group as spec values: its label, its runners, their merged
/// statistics.
pub type GroupView = (Option<Seq<char>>, Seq<Data>, Stats);

/// The index of the first of the labels `ks[i..]` that is `key`, or `ks.len()`.
pub open spec fn first_key(ks: Seq<Option<Seq<char>>>, key: Option<Seq<char>>, i: int) -> int
    decreases ks.len() - i,
{
    if i < 0 || i >= ks.len() {
        ks.len() as int
    } else if ks[i] == key {
        i
    } else {
        first_key(ks, key, i + 1)
    }
}

pub open spec fn group_keys(g: Seq<GroupView>) -> Seq<Option<Seq<char>>> {
    g.map_values(|x: GroupView| x.0)
}

/// The index of the first group of `g` labeled `key`, or `g.len()`.
pub open spec fn key_index(g: Seq<GroupView>, key: Option<Seq<char>>) -> int {
    first_key(group_keys(g), key, 0)
}

/// The labeled runners `s` grouped by label, in the order in which each
/// label is first met.
pub open spec fn grouped(s: Seq<(Option<Seq<char>>, Data)>) -> Seq<GroupView>
    decreases s.len(),
{
    if s.len() == 0 {
        seq![]
    } else {
        let g = grouped(s.drop_last());
        let (key, d) = s.last();
        let i = key_index(g, key);
        if i < g.len() {
            g.update(i, (key, g[i].1.push(d), merged(g[i].2, d.info.stats)))
        } else {
            g.push((key, seq![d], d.info.stats))
        }
    }
}

/// The package groups of the pairs `p`: runners without tests are left out.
pub open spec fn correlate(p: Seq<(TestRunner, TestInfo)>) -> Seq<GroupView> {
    grouped(labeled(p, p.len() as int))
}

pub open spec fn opt_view(k: Option<String>) -> Option<Seq<char>> {
    match k {
        Some(s) => Some(s@),
        None => None,
    }
}

/// A runner and what it reported.
#[derive(Debug)]
pub struct Data {
    pub runner: TestRunner,
    pub info: TestInfo,
}

/// The runners of one package, and their merged statistics. Doc tests of
/// all packages form one group of their own.
#[derive(Debug)]
pub struct PkgTest {
    pub inner: Vec<Data>,
    pub stats: Stats,
}

impl PkgTest {
    pub open spec fn view(&self) -> (Seq<Data>, Stats) {
        (self.inner@, self.stats)
    }

    /// The group's statistics are those of its runners, merged.
    pub open spec fn well_formed(&self) -> bool {
        self.stats == merge_all(runner_stats(self.inner@))
    }

    /// A group of one runner.
    pub fn new(runner: TestRunner, info: TestInfo) -> (r: PkgTest)
        ensures
            r.inner@ == seq![Data { runner, info }],
            r.stats == info.stats,
            r.well_formed(),
    {
        proof {
            let rs = runner_stats(seq![Data { runner, info }]);
            assert(rs.drop_last() =~= Seq::<Stats>::empty());
            assert(merged(zero_stats(), info.stats) == info.stats);
        }
        let stats = info.stats;
        let mut inner: Vec<Data> = Vec::new();
        inner.push(Data { runner, info });
        assert(inner@ =~= seq![Data { runner, info }]);
        assert(runner_stats(inner@) =~= seq![stats]);
        assert(seq![stats].drop_last() =~= Seq::<Stats>::empty());
        assert(merge_all(Seq::<Stats>::empty()) == zero_stats());
        assert(seq![stats].last() == stats);
        assert(merge_all(seq![stats]) == merged(zero_stats(), stats));
        PkgTest { inner, stats }
    }

    /// Adds a runner to the group.
    pub fn push(&mut self, runner: TestRunner, info: TestInfo)
        ensures
            final(self).inner@ == old(self).inner@.push(Data { runner, info }),
            final(self).stats == merged(old(self).stats, info.stats),
            old(self).well_formed() ==> final(self).well_formed(),
    {
        proof {
            let rs = runner_stats(self.inner@.push(Data { runner, info }));
            assert(rs.drop_last() =~= runner_stats(self.inner@));
        }
        self.stats.absorb(&info.stats);
        self.inner.push(Data { runner, info });
    }
}

#[verifier::external_type_specification]
#[verifier::external_body]
#[verifier::reject_recursive_types(K)]
#[verifier::reject_recursive_types(V)]
#[verifier::reject_recursive_types(S)]
pub struct ExIndexMap<K, V, S>(indexmap::IndexMap<K, V, S>);

/// The entries of a package map, in order: each label with its group.
pub uninterp spec fn pkg_entries(m: indexmap::IndexMap<Option<String>, PkgTest>) -> Seq<
    (Option<Seq<char>>, PkgTest),
>;

pub open spec fn entry_keys(e: Seq<(Option<Seq<char>>, PkgTest)>) -> Seq<Option<Seq<char>>> {
    e.map_values(|x: (Option<Seq<char>>, PkgTest)| x.0)
}

/// The index of the first entry of `e` labeled `key`, or `e.len()`.
pub open spec fn entry_index(e: Seq<(Option<Seq<char>>, PkgTest)>, key: Option<Seq<char>>) -> int {
    first_key(entry_keys(e), key, 0)
}

/// Relies on `IndexMap::new`: an empty map.
#[verifier::external_body]
fn pkgs_new() -> (r: indexmap::IndexMap<Option<String>, PkgTest>)
    ensures
        pkg_entries(r) == Seq::<(Option<Seq<char>>, PkgTest)>::empty(),
{
    indexmap::IndexMap::new()
}

/// Relies on `IndexMap::insert`: an existing key keeps its place and takes
/// the new value (the old one is returned); a new key goes last.
#[verifier::external_body]
fn pkgs_insert(
    m: &mut indexmap::IndexMap<Option<String>, PkgTest>,
    key: Option<String>,
    value: PkgTest,
) -> (r: Option<PkgTest>)
    ensures
        ({
            let e = pkg_entries(*old(m));
            let i = entry_index(e, opt_view(key));
            if i < e.len() {
                &&& pkg_entries(*final(m)) == e.update(i, (opt_view(key), value))
                &&& r == Some(e[i].1)
            } else {
                &&& pkg_entries(*final(m)) == e.push((opt_view(key), value))
                &&& r is None
            }
        }),
{
    m.insert(key, value)
}

/// Relies on `IndexMap::len`: the number of entries.
#[verifier::external_body]
pub(crate) fn pkgs_len(m: &indexmap::IndexMap<Option<String>, PkgTest>) -> (r: usize)
    ensures
        r == pkg_entries(*m).len(),
{
    m.len()
}

/// Relies on `IndexMap::get_index`: the entry at index `i`, where there is one.
#[verifier::external_body]
pub(crate) fn pkgs_get_index(m: &indexmap::IndexMap<Option<String>, PkgTest>, i: usize)
    -> (r: Option<(&Option<String>, &PkgTest)>)
    ensures
        r is Some <==> i < pkg_entries(*m).len(),
        r matches Some(kv) ==> opt_view(*kv.0) == pkg_entries(*m)[i as int].0,
        r matches Some(kv) ==> *kv.1 == pkg_entries(*m)[i as int].1,
{
    m.get_index(i)
}

/// All the runners with tests, grouped by package in the order met.
#[derive(Debug)]
pub struct TestRunners {
    pub pkgs: indexmap::IndexMap<Option<String>, PkgTest>,
}

pub open spec fn entry_view(e: (Option<Seq<char>>, PkgTest)) -> GroupView {
    (e.0, e.1.inner@, e.1.stats)
}

pub open spec fn entries_view(e: Seq<(Option<Seq<char>>, PkgTest)>) -> Seq<GroupView> {
    e.map_values(|x: (Option<Seq<char>>, PkgTest)| entry_view(x))
}

pub open spec fn item_view(x: (Option<String>, TestRunner, TestInfo)) -> (Option<Seq<char>>, Data) {
    (opt_view(x.0), Data { runner: x.1, info: x.2 })
}

pub open spec fn items_view(v: Seq<(Option<String>, TestRunner, TestInfo)>) -> Seq<
    (Option<Seq<char>>, Data),
> {
    v.map_values(|x: (Option<String>, TestRunner, TestInfo)| item_view(x))
}

pub proof fn lemma_first_key_bounds(ks: Seq<Option<Seq<char>>>, key: Option<Seq<char>>, i: int)
    requires
        0 <= i <= ks.len(),
    ensures
        i <= first_key(ks, key, i) <= ks.len(),
        first_key(ks, key, i) < ks.len() ==> ks[first_key(ks, key, i)] == key,
    decreases ks.len() - i,
{
    if i < ks.len() && ks[i] != key {
        lemma_first_key_bounds(ks, key, i + 1);
    }
}

proof fn lemma_first_key_push(
    ks: Seq<Option<Seq<char>>>,
    x: Option<Seq<char>>,
    key: Option<Seq<char>>,
    i: int,
)
    requires
        0 <= i <= ks.len(),
    ensures
        first_key(ks.push(x), key, i) == if first_key(ks, key, i) < ks.len() {
            first_key(ks, key, i)
        } else if x == key {
            ks.len() as int
        } else {
            ks.len() + 1 as int
        },
    decreases ks.len() - i,
{
    if i == ks.len() {
        assert(ks.push(x)[i] == x);
        if x != key {
            assert(first_key(ks.push(x), key, i + 1) == ks.len() + 1);
        }
    }
    if i < ks.len() {
        assert(ks.push(x)[i] == ks[i]);
        if ks[i] != key {
            lemma_first_key_push(ks, x, key, i + 1);
        }
    }
}

fn copy_key(k: &Option<String>) -> (r: Option<String>)
    ensures
        r == *k,
{
    match k {
        Some(s) => Some(s.clone()),
        None => None,
    }
}

impl PkgTest {
    /// A group of no runner, a placeholder.
    fn empty() -> (r: PkgTest)
        ensures
            r.inner@ == Seq::<Data>::empty(),
    {
        PkgTest { inner: Vec::new(), stats: Stats::default() }
    }
}

impl TestRunners {
    pub open spec fn view(&self) -> Seq<GroupView> {
        entries_view(pkg_entries(self.pkgs))
    }

    /// Groups labeled runners by label, in the order in which each label is
    /// first met.
    pub fn new(v: Vec<(Option<String>, TestRunner, TestInfo)>) -> (r: TestRunners)
        ensures
            r@ == grouped(items_view(v@)),
    {
        let ghost items = items_view(v@);
        let ghost v0 = v@;
        let mut v = v;
        let len0 = v.len();
        assert(v0.len() == len0);
        let mut pkgs = pkgs_new();
        let mut n: usize = 0;
        assert(items.subrange(0, 0) =~= seq![]);
        assert(entries_view(pkg_entries(pkgs)) =~= seq![]);
        while v.len() > 0
            invariant
                n + v.len() == v0.len(),
                v0.len() <= usize::MAX,
                items == items_view(v0),
                v@ == v0.subrange(n as int, v0.len() as int),
                entries_view(pkg_entries(pkgs)) == grouped(items.subrange(0, n as int)),
            decreases v.len(),
        {
            let ghost e = pkg_entries(pkgs);
            let ghost g = grouped(items.subrange(0, n as int));
            assert(v0[n as int] == v@[0]);
            let (key, runner, info) = v.remove(0);
            assert(n < v0.len());
            let ghost kv = opt_view(key);
            let ghost d = Data { runner, info };
            assert(items.subrange(0, n + 1).drop_last() =~= items.subrange(0, n as int));
            assert(items.subrange(0, n + 1).last() == (kv, d));
            assert(entry_keys(e) =~= group_keys(g));
            proof {
                lemma_first_key_bounds(entry_keys(e), kv, 0);
            }
            let ghost i = entry_index(e, kv);
            // A placeholder takes the label's place, and hands back the group
            // that held it, if any; the group, grown, then replaces it.
            let prev = pkgs_insert(&mut pkgs, copy_key(&key), PkgTest::empty());
            let ghost e1 = pkg_entries(pkgs);
            match prev {
                Some(mut group) => {
                    assert(entry_keys(e1) =~= entry_keys(e));
                    group.push(runner, info);
                    let _ = pkgs_insert(&mut pkgs, key, group);
                    assert(entries_view(pkg_entries(pkgs)) =~= g.update(
                        i,
                        (kv, g[i].1.push(d), merged(g[i].2, d.info.stats)),
                    ));
                },
                None => {
                    assert(entry_keys(e1) =~= entry_keys(e).push(kv));
                    proof {
                        lemma_first_key_push(entry_keys(e), kv, kv, 0);
                    }
                    let _ = pkgs_insert(&mut pkgs, key, PkgTest::new(runner, info));
                    assert(entries_view(pkg_entries(pkgs)) =~= g.push((kv, seq![d], d.info.stats)));
                },
            }
            n += 1;
        }
        assert(items.subrange(0, n as int) =~= items);
        TestRunners { pkgs }
    }
}

/// Labels each pair that holds tests with its package and groups them; see
/// [`correlate`].
pub fn group_pairs(pairs: Vec<(TestRunner, TestInfo)>) -> (r: TestRunners)
    ensures
        r@ == correlate(pairs@),
{
    let ghost p0 = pairs@;
    let mut pairs = pairs;
    let len0 = pairs.len();
    assert(p0.len() == len0);
    let mut pkg: Option<String> = None;
    let mut lab: Vec<(Option<String>, TestRunner, TestInfo)> = Vec::new();
    let mut n: usize = 0;
    assert(items_view(lab@) =~= seq![]);
    while pairs.len() > 0
        invariant
            n + pairs.len() == p0.len(),
            p0.len() <= usize::MAX,
            pairs@ == p0.subrange(n as int, p0.len() as int),
            opt_view(pkg) == pkg_after(p0, n as int),
            items_view(lab@) == labeled(p0, n as int),
        decreases pairs.len(),
    {
        assert(p0[n as int] == pairs@[0]);
        let (runner, info) = pairs.remove(0);
        assert(n < p0.len());
        match runner.ty {
            TestType::UnitLib | TestType::UnitBin => {
                pkg = Some(string_of(&chars_of(runner.src.bin_name.as_str())));
            },
            _ => {},
        }
        if info.stats.total != 0 {
            let label = match runner.ty {
                TestType::Doc => {
                    let doc = Some(string_of(&vec!['D', 'o', 'c', ' ', 'T', 'e', 's', 't', 's']));
                    assert(doc->Some_0@ =~= DOC_LABEL());
                    doc
                },
                _ => copy_key(&pkg),
            };
            let ghost before = items_view(lab@);
            lab.push((label, runner, info));
            assert(items_view(lab@) =~= before.push(item_view(lab@[lab.len() - 1])));
        }
        n += 1;
    }
    assert(p0.len() == n);
    TestRunners::new(lab)
}

/// Parses the two streams and groups the runners that hold tests by package.
pub fn parse_cargo_test(stderr: &str, stdout: &str) -> (r: Result<TestRunners, Error>)
    ensures
        r is Ok <==> streams_ok(stderr@, stdout@),
        r matches Err(e) ==> streams_error(stderr@, stdout@, e),
        r matches Ok(t) ==> exists|p: Seq<(TestRunner, TestInfo)>|
            pairs_match(stderr@, stdout@, p) && t@ == #[trigger] correlate(p),
{
    match parse_cargo_test_with_empty_ones(stderr, stdout) {
        Ok(pairs) => {
            let ghost p = pairs@;
            let t = group_pairs(pairs);
            assert(pairs_match(stderr@, stdout@, p) && t@ == correlate(p));
            Ok(t)
        },
        Err(e) => Err(e),
    }
}

} // verus!
