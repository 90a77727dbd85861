//! The summary texts of statistics: counts, elapsed time and status.

use crate::parsing::Stats;
use crate::style::{bold, blue_bold, green_bold, red, red_bold, shaded, BLUE_BOLD, BOLD, GREEN_BOLD, RED, RED_BOLD};
use crate::text::{append_chars, chars_of, string_of, views};
use vstd::prelude::*;

verus! {

pub open spec fn DIGITS() -> Seq<char> {
    seq!['0', '1', '2', '3', '4', '5', '6', '7', '8', '9']
}

/// The decimal digits of `n`.
pub open spec fn decimal(n: nat) -> Seq<char>
    decreases n,
{
    if n < 10 {
        seq![DIGITS()[n as int]]
    } else {
        decimal(n / 10).push(DIGITS()[(n % 10) as int])
    }
}

/// The hundredths of a second in `nanos` nanoseconds, rounded half up.
pub open spec fn centis(nanos: nat) -> nat {
    nanos / 10_000_000 + if nanos % 10_000_000 >= 5_000_000 { 1nat } else { 0nat }
}

/// `nanos` nanoseconds as seconds with two decimals.
pub open spec fn secs2(nanos: nat) -> Seq<char> {
    let c = centis(nanos);
    decimal(c / 100) + seq!['.', DIGITS()[((c % 100) / 10) as int], DIGITS()[(c % 10) as int]]
}

pub open spec fn TESTS_IN() -> Seq<char> {
    seq![' ', 't', 'e', 's', 't', 's', ' ', 'i', 'n', ' ']
}

fn lit_tests_in() -> (r: Vec<char>)
    ensures
        r@ == TESTS_IN(),
{
    let r: Vec<char> = vec![' ', 't', 'e', 's', 't', 's', ' ', 'i', 'n', ' '];
    assert(r@ =~= TESTS_IN());
    r
}

pub open spec fn SECS_COLON() -> Seq<char> {
    seq!['s', ':', ' ']
}

fn lit_secs_colon() -> (r: Vec<char>)
    ensures
        r@ == SECS_COLON(),
{
    let r: Vec<char> = vec!['s', ':', ' '];
    assert(r@ =~= SECS_COLON());
    r
}

pub open spec fn SEMI() -> Seq<char> {
    seq![';', ' ']
}

fn lit_semi() -> (r: Vec<char>)
    ensures
        r@ == SEMI(),
{
    let r: Vec<char> = vec![';', ' '];
    assert(r@ =~= SEMI());
    r
}

pub open spec fn PASS_MARK() -> Seq<char> {
    seq!['\u{2705}', ' ']
}

fn lit_pass_mark() -> (r: Vec<char>)
    ensures
        r@ == PASS_MARK(),
{
    let r: Vec<char> = vec!['\u{2705}', ' '];
    assert(r@ =~= PASS_MARK());
    r
}

pub open spec fn IGNORE_MARK() -> Seq<char> {
    seq!['\u{1F515}', ' ']
}

fn lit_ignore_mark() -> (r: Vec<char>)
    ensures
        r@ == IGNORE_MARK(),
{
    let r: Vec<char> = vec!['\u{1F515}', ' '];
    assert(r@ =~= IGNORE_MARK());
    r
}

pub open spec fn CUT_MARK() -> Seq<char> {
    seq!['\u{2702}', '\u{FE0F}', ' ']
}

fn lit_cut_mark() -> (r: Vec<char>)
    ensures
        r@ == CUT_MARK(),
{
    let r: Vec<char> = vec!['\u{2702}', '\u{FE0F}', ' '];
    assert(r@ =~= CUT_MARK());
    r
}

pub open spec fn FAIL_MARK() -> Seq<char> {
    seq!['\u{274C}', ' ']
}

fn lit_fail_mark() -> (r: Vec<char>)
    ensures
        r@ == FAIL_MARK(),
{
    let r: Vec<char> = vec!['\u{274C}', ' '];
    assert(r@ =~= FAIL_MARK());
    r
}

pub open spec fn OPEN() -> Seq<char> {
    seq!['(']
}

fn lit_open() -> (r: Vec<char>)
    ensures
        r@ == OPEN(),
{
    let r: Vec<char> = vec!['('];
    assert(r@ =~= OPEN());
    r
}

pub open spec fn CLOSE_SP() -> Seq<char> {
    seq![')', ' ']
}

fn lit_close_sp() -> (r: Vec<char>)
    ensures
        r@ == CLOSE_SP(),
{
    let r: Vec<char> = vec![')', ' '];
    assert(r@ =~= CLOSE_SP());
    r
}

pub open spec fn DOTS_OPEN() -> Seq<char> {
    seq![' ', '.', '.', '.', ' ', '(']
}

fn lit_dots_open() -> (r: Vec<char>)
    ensures
        r@ == DOTS_OPEN(),
{
    let r: Vec<char> = vec![' ', '.', '.', '.', ' ', '('];
    assert(r@ =~= DOTS_OPEN());
    r
}

pub open spec fn CLOSE() -> Seq<char> {
    seq![')']
}

fn lit_close() -> (r: Vec<char>)
    ensures
        r@ == CLOSE(),
{
    let r: Vec<char> = vec![')'];
    assert(r@ =~= CLOSE());
    r
}

pub open spec fn OK_TEXT() -> Seq<char> {
    seq!['O', 'K']
}

fn lit_ok_text() -> (r: Vec<char>)
    ensures
        r@ == OK_TEXT(),
{
    let r: Vec<char> = vec!['O', 'K'];
    assert(r@ =~= OK_TEXT());
    r
}

pub open spec fn FAIL_TEXT() -> Seq<char> {
    seq!['F', 'A', 'I', 'L']
}

fn lit_fail_text() -> (r: Vec<char>)
    ensures
        r@ == FAIL_TEXT(),
{
    let r: Vec<char> = vec!['F', 'A', 'I', 'L'];
    assert(r@ =~= FAIL_TEXT());
    r
}

pub open spec fn STATUS_HEAD() -> Seq<char> {
    seq!['S', 't', 'a', 't', 'u', 's', ':', ' ']
}

fn lit_status_head() -> (r: Vec<char>)
    ensures
        r@ == STATUS_HEAD(),
{
    let r: Vec<char> = vec!['S', 't', 'a', 't', 'u', 's', ':', ' '];
    assert(r@ =~= STATUS_HEAD());
    r
}

pub open spec fn TOTAL() -> Seq<char> {
    seq![';', ' ', 't', 'o', 't', 'a', 'l', ' ']
}

fn lit_total() -> (r: Vec<char>)
    ensures
        r@ == TOTAL(),
{
    let r: Vec<char> = vec![';', ' ', 't', 'o', 't', 'a', 'l', ' '];
    assert(r@ =~= TOTAL());
    r
}

pub open spec fn PASSED_SEMI() -> Seq<char> {
    seq![' ', 'p', 'a', 's', 's', 'e', 'd', ';', ' ']
}

fn lit_passed_semi() -> (r: Vec<char>)
    ensures
        r@ == PASSED_SEMI(),
{
    let r: Vec<char> = vec![' ', 'p', 'a', 's', 's', 'e', 'd', ';', ' '];
    assert(r@ =~= PASSED_SEMI());
    r
}

pub open spec fn FAILED_WORD() -> Seq<char> {
    seq![' ', 'f', 'a', 'i', 'l', 'e', 'd']
}

fn lit_failed_word() -> (r: Vec<char>)
    ensures
        r@ == FAILED_WORD(),
{
    let r: Vec<char> = vec![' ', 'f', 'a', 'i', 'l', 'e', 'd'];
    assert(r@ =~= FAILED_WORD());
    r
}

pub open spec fn IGNORED_SEMI() -> Seq<char> {
    seq![' ', 'i', 'g', 'n', 'o', 'r', 'e', 'd', ';', ' ']
}

fn lit_ignored_semi() -> (r: Vec<char>)
    ensures
        r@ == IGNORED_SEMI(),
{
    let r: Vec<char> = vec![' ', 'i', 'g', 'n', 'o', 'r', 'e', 'd', ';', ' '];
    assert(r@ =~= IGNORED_SEMI());
    r
}

pub open spec fn MEASURED_SEMI() -> Seq<char> {
    seq![' ', 'm', 'e', 'a', 's', 'u', 'r', 'e', 'd', ';', ' ']
}

fn lit_measured_semi() -> (r: Vec<char>)
    ensures
        r@ == MEASURED_SEMI(),
{
    let r: Vec<char> = vec![' ', 'm', 'e', 'a', 's', 'u', 'r', 'e', 'd', ';', ' '];
    assert(r@ =~= MEASURED_SEMI());
    r
}

pub open spec fn FILTERED_WORD() -> Seq<char> {
    seq![' ', 'f', 'i', 'l', 't', 'e', 'r', 'e', 'd', ' ', 'o', 'u', 't']
}

fn lit_filtered_word() -> (r: Vec<char>)
    ensures
        r@ == FILTERED_WORD(),
{
    let r: Vec<char> = vec![' ', 'f', 'i', 'l', 't', 'e', 'r', 'e', 'd', ' ', 'o', 'u', 't'];
    assert(r@ =~= FILTERED_WORD());
    r
}

/// The decimal digits of `n`; see [`decimal`].
pub fn decimal_exec(n: u64) -> (r: Vec<char>)
    ensures
        r@ == decimal(n as nat),
    decreases n,
{
    let digits: Vec<char> = vec!['0', '1', '2', '3', '4', '5', '6', '7', '8', '9'];
    assert(digits@ =~= DIGITS());
    if n < 10 {
        let r: Vec<char> = vec![digits[n as usize]];
        assert(r@ =~= decimal(n as nat));
        r
    } else {
        let mut r = decimal_exec(n / 10);
        r.push(digits[(n % 10) as usize]);
        r
    }
}

/// Seconds with two decimals; see [`secs2`].
pub fn secs2_exec(nanos: u64) -> (r: Vec<char>)
    ensures
        r@ == secs2(nanos as nat),
{
    let digits: Vec<char> = vec!['0', '1', '2', '3', '4', '5', '6', '7', '8', '9'];
    assert(digits@ =~= DIGITS());
    let c: u64 = nanos / 10_000_000 + if nanos % 10_000_000 >= 5_000_000 {
        1
    } else {
        0
    };
    let mut r = decimal_exec(c / 100);
    r.push('.');
    r.push(digits[((c % 100) / 10) as usize]);
    r.push(digits[(c % 10) as usize]);
    assert(r@ =~= secs2(nanos as nat));
    r
}

/// The pieces joined with `; `.
pub open spec fn join_semi(ps: Seq<Seq<char>>) -> Seq<char>
    decreases ps.len(),
{
    if ps.len() == 0 {
        seq![]
    } else if ps.len() == 1 {
        ps[0]
    } else {
        join_semi(ps.drop_last()) + SEMI() + ps.last()
    }
}

/// The failure count as shown in a summary, before colouring.
pub open spec fn failed_piece(s: Stats) -> Seq<char> {
    FAIL_MARK() + decimal(s.failed as nat)
}

/// The non-zero metrics of `s`, in the order passed, failed, ignored,
/// filtered out; `fx` is how the failure count is shown.
pub open spec fn metrics(s: Stats, fx: Seq<char>) -> Seq<Seq<char>> {
    (if s.passed != 0 { seq![PASS_MARK() + decimal(s.passed as nat)] } else { seq![] })
        + (if s.failed != 0 { seq![fx] } else { seq![] })
        + (if s.ignored != 0 { seq![IGNORE_MARK() + decimal(s.ignored as nat)] } else { seq![] })
        + (if s.filtered_out != 0 { seq![CUT_MARK() + decimal(s.filtered_out as nat)] } else { seq![] })
}

/// `<total> tests in <secs>s: <metrics>`, where `fx` shows the failure count.
pub open spec fn inlay_text(s: Stats, fx: Seq<char>) -> Seq<char> {
    decimal(s.total as nat) + TESTS_IN() + secs2(s.finished_in as nat) + SECS_COLON() + join_semi(
        metrics(s, fx),
    )
}

/// `out` is the inline summary of `s`, its failure count coloured red or not.
pub open spec fn is_inlay(s: Stats, out: Seq<char>) -> bool {
    exists|fx: Seq<char>| shaded(RED(), failed_piece(s), fx) && out == #[trigger] inlay_text(s, fx)
}

/// `out` is `OK` in bold green where `ok`, else `FAIL` in bold red (or plain).
pub open spec fn is_status(ok: bool, out: Seq<char>) -> bool {
    if ok {
        shaded(GREEN_BOLD(), OK_TEXT(), out)
    } else {
        shaded(RED_BOLD(), FAIL_TEXT(), out)
    }
}

/// `(<status>) <name> ... (<inlay>)`.
pub open spec fn titled(status: Seq<char>, name: Seq<char>, inlay: Seq<char>) -> Seq<char> {
    OPEN() + status + CLOSE_SP() + name + DOTS_OPEN() + inlay + CLOSE()
}

/// `t` is the title of a package group named `name` with statistics `s`:
/// status, the name in bold blue and the inline summary in bold.
pub open spec fn is_root_title(s: Stats, name: Seq<char>, t: Seq<char>) -> bool {
    exists|st: Seq<char>, shown_name: Seq<char>, inlay: Seq<char>, shown: Seq<char>|
        #![trigger titled(st, shown_name, shown), is_inlay(s, inlay)]
        is_status(s.ok, st) && shaded(BLUE_BOLD(), name, shown_name) && is_inlay(s, inlay)
            && shaded(BOLD(), inlay, shown) && t == titled(st, shown_name, shown)
}

/// `t` is the title of a runner named `name` with statistics `s`: status,
/// the name and the inline summary.
pub open spec fn is_subroot_title(s: Stats, name: Seq<char>, t: Seq<char>) -> bool {
    exists|st: Seq<char>, inlay: Seq<char>|
        #![trigger titled(st, name, inlay), is_inlay(s, inlay)]
        is_status(s.ok, st) && is_inlay(s, inlay) && t == titled(st, name, inlay)
}

/// The status of a run, coloured; see [`is_status`].
pub fn status(ok: bool) -> (r: String)
    ensures
        is_status(ok, r@),
{
    if ok {
        let t = string_of(&lit_ok_text());
        green_bold(t.as_str())
    } else {
        let t = string_of(&lit_fail_text());
        red_bold(t.as_str())
    }
}

impl Stats {
    /// The inline summary: `<total> tests in <secs>s: ` and the non-zero
    /// metrics among passed, failed (in red), ignored and filtered out.
    #[verifier::rlimit(40)]
    pub fn inlay_summary_string(&self) -> (r: String)
        ensures
            is_inlay(*self, r@),
    {
        let mut fplain = lit_fail_mark();
        append_chars(&mut fplain, &decimal_exec(self.failed as u64));
        let fx = red(string_of(&fplain).as_str());
        let fxc = chars_of(fx.as_str());
        assert(shaded(RED(), failed_piece(*self), fxc@));
        let mut ps: Vec<Vec<char>> = Vec::new();
        if self.passed != 0 {
            let mut p = lit_pass_mark();
            append_chars(&mut p, &decimal_exec(self.passed as u64));
            ps.push(p);
        }
        let ghost a = views(ps@);
        if self.failed != 0 {
            ps.push(fxc);
        }
        let ghost b = views(ps@);
        if self.ignored != 0 {
            let mut p = lit_ignore_mark();
            append_chars(&mut p, &decimal_exec(self.ignored as u64));
            ps.push(p);
        }
        let ghost c = views(ps@);
        if self.filtered_out != 0 {
            let mut p = lit_cut_mark();
            append_chars(&mut p, &decimal_exec(self.filtered_out as u64));
            ps.push(p);
        }
        assert(views(ps@) =~= metrics(*self, fxc@));
        let mut out = decimal_exec(self.total as u64);
        append_chars(&mut out, &lit_tests_in());
        append_chars(&mut out, &secs2_exec(self.finished_in));
        append_chars(&mut out, &lit_secs_colon());
        append_chars(&mut out, &join_semi_exec(&ps));
        assert(out@ =~= inlay_text(*self, fxc@));
        string_of(&out)
    }

    /// The title of a package group: status, name in bold blue, and the
    /// inline summary in bold.
    pub fn root_string(&self, pkg_name: &str) -> (r: String)
        ensures
            is_root_title(*self, pkg_name@, r@),
    {
        let st = status(self.ok);
        let name = blue_bold(pkg_name);
        let inlay = self.inlay_summary_string();
        let shown = bold(inlay.as_str());
        let mut out = lit_open();
        append_chars(&mut out, &chars_of(st.as_str()));
        append_chars(&mut out, &lit_close_sp());
        append_chars(&mut out, &chars_of(name.as_str()));
        append_chars(&mut out, &lit_dots_open());
        append_chars(&mut out, &chars_of(shown.as_str()));
        append_chars(&mut out, &lit_close());
        assert(out@ =~= titled(st@, name@, shown@));
        string_of(&out)
    }

    /// The title of a runner: status, name, and the inline summary.
    pub fn subroot_string(&self, runner_name: &str) -> (r: String)
        ensures
            is_subroot_title(*self, runner_name@, r@),
    {
        let st = status(self.ok);
        let inlay = self.inlay_summary_string();
        let mut out = lit_open();
        append_chars(&mut out, &chars_of(st.as_str()));
        append_chars(&mut out, &lit_close_sp());
        append_chars(&mut out, &chars_of(runner_name));
        append_chars(&mut out, &lit_dots_open());
        append_chars(&mut out, &chars_of(inlay.as_str()));
        append_chars(&mut out, &lit_close());
        assert(out@ =~= titled(st@, runner_name@, inlay@));
        string_of(&out)
    }
}

/// The status line of a whole run, where `st` shows the status and `fail`
/// the failure count.
pub open spec fn status_text(s: Stats, st: Seq<char>, fail: Seq<char>) -> Seq<char> {
    STATUS_HEAD() + st + TOTAL() + decimal(s.total as nat) + TESTS_IN() + secs2(
        s.finished_in as nat,
    ) + SECS_COLON() + decimal(s.passed as nat) + PASSED_SEMI() + fail + SEMI() + decimal(
        s.ignored as nat,
    ) + IGNORED_SEMI() + decimal(s.measured as nat) + MEASURED_SEMI() + decimal(
        s.filtered_out as nat,
    ) + FILTERED_WORD()
}

impl Stats {
    /// The status line of a whole run: status, totals and time, with a
    /// non-zero failure count in bold red.
    pub fn status_line(&self) -> (r: String)
        ensures
            exists|st: Seq<char>, fail: Seq<char>|
                #![trigger status_text(*self, st, fail)]
                is_status(self.ok, st) && (self.failed == 0 ==> fail == decimal(self.failed as nat)
                    + FAILED_WORD()) && (self.failed != 0 ==> shaded(
                    RED_BOLD(),
                    decimal(self.failed as nat) + FAILED_WORD(),
                    fail,
                )) && r@ == status_text(*self, st, fail),
    {
        let st = status(self.ok);
        let mut fplain = decimal_exec(self.failed as u64);
        append_chars(&mut fplain, &lit_failed_word());
        let fail = if self.failed == 0 {
            fplain
        } else {
            chars_of(red_bold(string_of(&fplain).as_str()).as_str())
        };
        let mut out = lit_status_head();
        append_chars(&mut out, &chars_of(st.as_str()));
        append_chars(&mut out, &lit_total());
        append_chars(&mut out, &decimal_exec(self.total as u64));
        append_chars(&mut out, &lit_tests_in());
        append_chars(&mut out, &secs2_exec(self.finished_in));
        append_chars(&mut out, &lit_secs_colon());
        append_chars(&mut out, &decimal_exec(self.passed as u64));
        append_chars(&mut out, &lit_passed_semi());
        append_chars(&mut out, &fail);
        append_chars(&mut out, &lit_semi());
        append_chars(&mut out, &decimal_exec(self.ignored as u64));
        append_chars(&mut out, &lit_ignored_semi());
        append_chars(&mut out, &decimal_exec(self.measured as u64));
        append_chars(&mut out, &lit_measured_semi());
        append_chars(&mut out, &decimal_exec(self.filtered_out as u64));
        append_chars(&mut out, &lit_filtered_word());
        assert(out@ =~= status_text(*self, st@, fail@));
        string_of(&out)
    }
}

/// The pieces joined with `; `; see [`join_semi`].
fn join_semi_exec(ps: &Vec<Vec<char>>) -> (r: Vec<char>)
    ensures
        r@ == join_semi(views(ps@)),
{
    let mut out: Vec<char> = Vec::new();
    let mut i: usize = 0;
    assert(views(ps@).subrange(0, 0) =~= seq![]);
    while i < ps.len()
        invariant
            i <= ps.len(),
            out@ == join_semi(views(ps@).subrange(0, i as int)),
        decreases ps.len() - i,
    {
        let ghost next = views(ps@).subrange(0, i + 1);
        assert(next.drop_last() =~= views(ps@).subrange(0, i as int));
        if i > 0 {
            append_chars(&mut out, &lit_semi());
        } else {
            assert(next =~= seq![ps@[0]@]);
        }
        append_chars(&mut out, &ps[i]);
        i += 1;
        assert(out@ =~= join_semi(next));
    }
    assert(views(ps@).subrange(0, i as int) =~= views(ps@));
    out
}

} // verus!
