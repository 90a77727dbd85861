//! The command line around a run: which colours were asked for, and what
//! is passed on to `cargo test`.

use crate::grammar::{has_at, has_at_exec};
use crate::order::same_chars;
use crate::parsing::string_views;
use crate::text::{chars_of, string_of};
use vstd::prelude::*;

verus! {

/// How colours were asked for.
#[derive(Clone, Copy, Debug, PartialEq, Eq, Structural)]
pub enum SetColor {
    Always,
    Never,
    Auto,
    Unset,
}

pub open spec fn COLOR_FLAG() -> Seq<char> {
    seq!['-', '-', 'c', 'o', 'l', 'o', 'r']
}

fn lit_color_flag() -> (r: Vec<char>)
    ensures
        r@ == COLOR_FLAG(),
{
    let r: Vec<char> = vec!['-', '-', 'c', 'o', 'l', 'o', 'r'];
    assert(r@ =~= COLOR_FLAG());
    r
}

pub open spec fn COLOR_ALWAYS() -> Seq<char> {
    seq!['-', '-', 'c', 'o', 'l', 'o', 'r', '=', 'a', 'l', 'w', 'a', 'y', 's']
}

fn lit_color_always() -> (r: Vec<char>)
    ensures
        r@ == COLOR_ALWAYS(),
{
    let r: Vec<char> = vec!['-', '-', 'c', 'o', 'l', 'o', 'r', '=', 'a', 'l', 'w', 'a', 'y', 's'];
    assert(r@ =~= COLOR_ALWAYS());
    r
}

pub open spec fn COLOR_NEVER() -> Seq<char> {
    seq!['-', '-', 'c', 'o', 'l', 'o', 'r', '=', 'n', 'e', 'v', 'e', 'r']
}

fn lit_color_never() -> (r: Vec<char>)
    ensures
        r@ == COLOR_NEVER(),
{
    let r: Vec<char> = vec!['-', '-', 'c', 'o', 'l', 'o', 'r', '=', 'n', 'e', 'v', 'e', 'r'];
    assert(r@ =~= COLOR_NEVER());
    r
}

pub open spec fn COLOR_AUTO() -> Seq<char> {
    seq!['-', '-', 'c', 'o', 'l', 'o', 'r', '=', 'a', 'u', 't', 'o']
}

fn lit_color_auto() -> (r: Vec<char>)
    ensures
        r@ == COLOR_AUTO(),
{
    let r: Vec<char> = vec!['-', '-', 'c', 'o', 'l', 'o', 'r', '=', 'a', 'u', 't', 'o'];
    assert(r@ =~= COLOR_AUTO());
    r
}

pub open spec fn ALWAYS() -> Seq<char> {
    seq!['a', 'l', 'w', 'a', 'y', 's']
}

fn lit_always() -> (r: Vec<char>)
    ensures
        r@ == ALWAYS(),
{
    let r: Vec<char> = vec!['a', 'l', 'w', 'a', 'y', 's'];
    assert(r@ =~= ALWAYS());
    r
}

pub open spec fn NEVER() -> Seq<char> {
    seq!['n', 'e', 'v', 'e', 'r']
}

fn lit_never() -> (r: Vec<char>)
    ensures
        r@ == NEVER(),
{
    let r: Vec<char> = vec!['n', 'e', 'v', 'e', 'r'];
    assert(r@ =~= NEVER());
    r
}

pub open spec fn AUTO() -> Seq<char> {
    seq!['a', 'u', 't', 'o']
}

fn lit_auto() -> (r: Vec<char>)
    ensures
        r@ == AUTO(),
{
    let r: Vec<char> = vec!['a', 'u', 't', 'o'];
    assert(r@ =~= AUTO());
    r
}

pub open spec fn DASHDASH() -> Seq<char> {
    seq!['-', '-']
}

fn lit_dashdash() -> (r: Vec<char>)
    ensures
        r@ == DASHDASH(),
{
    let r: Vec<char> = vec!['-', '-'];
    assert(r@ =~= DASHDASH());
    r
}

pub open spec fn BIN_NAME() -> Seq<char> {
    seq!['c', 'a', 'r', 'g', 'o', '-', 'p', 'r', 'e', 't', 't', 'y', '-', 't', 'e', 's', 't']
}

fn lit_bin_name() -> (r: Vec<char>)
    ensures
        r@ == BIN_NAME(),
{
    let r: Vec<char> = vec!['c', 'a', 'r', 'g', 'o', '-', 'p', 'r', 'e', 't', 't', 'y', '-', 't', 'e', 's', 't'];
    assert(r@ =~= BIN_NAME());
    r
}

pub open spec fn SUBCOMMAND() -> Seq<char> {
    seq!['p', 'r', 'e', 't', 't', 'y', '-', 't', 'e', 's', 't']
}

fn lit_subcommand() -> (r: Vec<char>)
    ensures
        r@ == SUBCOMMAND(),
{
    let r: Vec<char> = vec!['p', 'r', 'e', 't', 't', 'y', '-', 't', 'e', 's', 't'];
    assert(r@ =~= SUBCOMMAND());
    r
}

pub open spec fn HELP_LONG() -> Seq<char> {
    seq!['-', '-', 'h', 'e', 'l', 'p']
}

fn lit_help_long() -> (r: Vec<char>)
    ensures
        r@ == HELP_LONG(),
{
    let r: Vec<char> = vec!['-', '-', 'h', 'e', 'l', 'p'];
    assert(r@ =~= HELP_LONG());
    r
}

pub open spec fn HELP_SHORT() -> Seq<char> {
    seq!['-', 'h']
}

fn lit_help_short() -> (r: Vec<char>)
    ensures
        r@ == HELP_SHORT(),
{
    let r: Vec<char> = vec!['-', 'h'];
    assert(r@ =~= HELP_SHORT());
    r
}

pub open spec fn NOCAPTURE() -> Seq<char> {
    seq!['-', '-', 'n', 'o', 'c', 'a', 'p', 't', 'u', 'r', 'e']
}

fn lit_nocapture() -> (r: Vec<char>)
    ensures
        r@ == NOCAPTURE(),
{
    let r: Vec<char> = vec!['-', '-', 'n', 'o', 'c', 'a', 'p', 't', 'u', 'r', 'e'];
    assert(r@ =~= NOCAPTURE());
    r
}

/// The arguments `s` without any `--nocapture`, which would print test
/// output among the outcome lines and spoil their parse.
pub open spec fn without_nocapture(s: Seq<Seq<char>>) -> Seq<Seq<char>>
    decreases s.len(),
{
    if s.len() == 0 {
        seq![]
    } else if s.last() == NOCAPTURE() {
        without_nocapture(s.drop_last())
    } else {
        without_nocapture(s.drop_last()).push(s.last())
    }
}

/// `w` is `lit` (a lower-case word), ignoring the case of ASCII letters.
pub open spec fn eq_ignore_case(w: Seq<char>, lit: Seq<char>) -> bool {
    w.len() == lit.len() && forall|i: int|
        0 <= i < w.len() ==> w[i] == lit[i] || (w[i] as u32) + 32 == #[trigger] (lit[i] as u32)
}

/// The colour choice that a word names, comparing exactly or ignoring case.
pub open spec fn word_choice(w: Seq<char>, fold: bool) -> Option<SetColor> {
    if (fold && eq_ignore_case(w, ALWAYS())) || (!fold && w == ALWAYS()) {
        Some(SetColor::Always)
    } else if (fold && eq_ignore_case(w, NEVER())) || (!fold && w == NEVER()) {
        Some(SetColor::Never)
    } else if (fold && eq_ignore_case(w, AUTO())) || (!fold && w == AUTO()) {
        Some(SetColor::Auto)
    } else {
        None
    }
}

/// The index of the first argument from `i` on that starts with `--color`.
pub open spec fn first_color_flag(args: Seq<Seq<char>>, i: int) -> int
    decreases args.len() - i,
{
    if i < 0 || i >= args.len() || has_at(args[i], 0, COLOR_FLAG()) {
        i
    } else {
        first_color_flag(args, i + 1)
    }
}

/// What the colour flag at `pos` asks for: `--color=<word>`, or `--color`
/// followed by the word.
pub open spec fn flag_choice(args: Seq<Seq<char>>, pos: int) -> Option<SetColor> {
    let a = args[pos];
    if a == COLOR_ALWAYS() {
        Some(SetColor::Always)
    } else if a == COLOR_NEVER() {
        Some(SetColor::Never)
    } else if a == COLOR_AUTO() {
        Some(SetColor::Auto)
    } else if a == COLOR_FLAG() && pos + 1 < args.len() {
        word_choice(args[pos + 1], false)
    } else {
        None
    }
}

/// The colour choice: the first `--color` flag decides; else the value of
/// `CARGO_TERM_COLOR` (`env`), in any case; else none was made. `None`
/// where a value is not `always`, `never` or `auto`.
pub open spec fn color_spec(args: Seq<Seq<char>>, env: Option<Seq<char>>) -> Option<SetColor> {
    let pos = first_color_flag(args, 0);
    if 0 <= pos < args.len() {
        flag_choice(args, pos)
    } else {
        match env {
            Some(v) => word_choice(v, true),
            None => Some(SetColor::Unset),
        }
    }
}

proof fn lemma_first_color_flag(args: Seq<Seq<char>>, i: int)
    requires
        0 <= i <= args.len(),
    ensures
        i <= first_color_flag(args, i) <= args.len(),
    decreases args.len() - i,
{
    if i < args.len() && !has_at(args[i], 0, COLOR_FLAG()) {
        lemma_first_color_flag(args, i + 1);
    }
}

fn eq_ignore_case_exec(w: &Vec<char>, lit: &Vec<char>) -> (r: bool)
    ensures
        r == eq_ignore_case(w@, lit@),
{
    if w.len() != lit.len() {
        return false;
    }
    let mut i: usize = 0;
    while i < w.len()
        invariant
            i <= w.len() == lit.len(),
            forall|k: int|
                0 <= k < i ==> w@[k] == lit@[k] || (w@[k] as u32) + 32 == #[trigger] (lit@[k] as u32),
        decreases w.len() - i,
    {
        if !(w[i] == lit[i] || (w[i] as u32) as u64 + 32 == (lit[i] as u32) as u64) {
            return false;
        }
        i += 1;
    }
    true
}

fn word_choice_exec(w: &Vec<char>, fold: bool) -> (r: Option<SetColor>)
    ensures
        r == word_choice(w@, fold),
{
    let words = [lit_always(), lit_never(), lit_auto()];
    let is = |k: usize| -> (b: bool)
        requires
            k < 3,
        ensures
            b == if k == 0 {
                (fold && eq_ignore_case(w@, ALWAYS())) || (!fold && w@ == ALWAYS())
            } else if k == 1 {
                (fold && eq_ignore_case(w@, NEVER())) || (!fold && w@ == NEVER())
            } else {
                (fold && eq_ignore_case(w@, AUTO())) || (!fold && w@ == AUTO())
            },
        {
            if fold {
                eq_ignore_case_exec(w, &words[k])
            } else {
                same_chars(w, &words[k])
            }
        };
    if is(0) {
        Some(SetColor::Always)
    } else if is(1) {
        Some(SetColor::Never)
    } else if is(2) {
        Some(SetColor::Auto)
    } else {
        None
    }
}

/// The colour choice of a command line and of the value of
/// `CARGO_TERM_COLOR`; see [`color_spec`].
pub fn color_choice(args: &Vec<String>, env: Option<&str>) -> (r: Option<SetColor>)
    ensures
        r == color_spec(
            string_views(args@),
            match env {
                Some(v) => Some(v@),
                None => None,
            },
        ),
{
    let ghost av = string_views(args@);
    let flag = lit_color_flag();
    let mut pos: usize = 0;
    while pos < args.len() && !has_at_exec(&chars_of(args[pos].as_str()), 0, &flag)
        invariant
            pos <= args.len(),
            av == string_views(args@),
            flag@ == COLOR_FLAG(),
            first_color_flag(av, 0) == first_color_flag(av, pos as int),
        decreases args.len() - pos,
    {
        assert(av[pos as int] == args@[pos as int]@);
        pos += 1;
    }
    proof {
        lemma_first_color_flag(av, pos as int);
    }
    if pos < args.len() {
        assert(av[pos as int] == args@[pos as int]@);
        let a = chars_of(args[pos].as_str());
        if same_chars(&a, &lit_color_always()) {
            Some(SetColor::Always)
        } else if same_chars(&a, &lit_color_never()) {
            Some(SetColor::Never)
        } else if same_chars(&a, &lit_color_auto()) {
            Some(SetColor::Auto)
        } else if same_chars(&a, &flag) && pos + 1 < args.len() {
            assert(av[pos + 1] == args@[pos + 1]@);
            word_choice_exec(&chars_of(args[pos + 1].as_str()), false)
        } else {
            None
        }
    } else {
        match env {
            Some(v) => word_choice_exec(&chars_of(v), true),
            None => Some(SetColor::Unset),
        }
    }
}

/// What is passed on to `cargo test`.
pub struct ForwardPlan {
    /// Arguments for cargo itself, before the user's.
    pub pre: Vec<String>,
    /// The user's arguments, without the program (and subcommand) name and
    /// without `--nocapture`.
    pub args: Vec<String>,
    /// Arguments for the test harness, after the user's.
    pub after: Vec<String>,
    /// The user asked for help.
    pub help: bool,
}

/// The `--color` argument that passes a choice on (none made: always).
pub open spec fn color_arg(c: SetColor) -> Seq<char> {
    match c {
        SetColor::Never => COLOR_NEVER(),
        SetColor::Auto => COLOR_AUTO(),
        _ => COLOR_ALWAYS(),
    }
}

pub open spec fn ends_with(s: Seq<char>, suffix: Seq<char>) -> bool {
    s.len() >= suffix.len() && s.subrange(s.len() - suffix.len(), s.len() as int) == suffix
}

/// How many leading arguments name the program: two for
/// `cargo-pretty-test pretty-test ...` (run as a cargo subcommand), else one.
pub open spec fn skipped(args: Seq<Seq<char>>) -> int {
    if args.len() >= 2 && ends_with(args[0], BIN_NAME()) && args[1] == SUBCOMMAND() {
        2
    } else if args.len() >= 1 {
        1
    } else {
        0
    }
}

fn ends_with_exec(s: &Vec<char>, suffix: &Vec<char>) -> (r: bool)
    ensures
        r == ends_with(s@, suffix@),
{
    if s.len() < suffix.len() {
        return false;
    }
    let start = s.len() - suffix.len();
    let r = has_at_exec(s, start, suffix);
    assert(start + suffix@.len() == s.len());
    r
}

fn is_word(a: &String, w: &Vec<char>) -> (r: bool)
    ensures
        r == (a@ == w@),
{
    same_chars(&chars_of(a.as_str()), w)
}

/// What to pass on to `cargo test` for the command line `passin` (program
/// name first) and the colour choice `c`: a choice travels to the test
/// harness (after a `--` where the user gave none), and where none was made
/// colours are forced on for cargo and the harness alike.
pub fn forward_plan(passin: &Vec<String>, c: SetColor) -> (r: ForwardPlan)
    ensures
        string_views(r.pre@) == if c == SetColor::Unset {
            seq![COLOR_ALWAYS()]
        } else {
            Seq::<Seq<char>>::empty()
        },
        string_views(r.after@) == if string_views(passin@).contains(DASHDASH()) {
            seq![color_arg(c)]
        } else {
            seq![DASHDASH(), color_arg(c)]
        },
        string_views(r.args@) == without_nocapture(
            string_views(passin@).subrange(skipped(string_views(passin@)), passin.len() as int),
        ),
        r.help == exists|i: int|
            skipped(string_views(passin@)) <= i < passin.len() && (passin@[i]@ == HELP_LONG()
                || passin@[i]@ == HELP_SHORT()),
{
    let ghost pv = string_views(passin@);
    let dd = lit_dashdash();
    let mut dashdash = false;
    let mut i: usize = 0;
    while i < passin.len()
        invariant
            i <= passin.len(),
            pv == string_views(passin@),
            dd@ == DASHDASH(),
            dashdash == exists|k: int| 0 <= k < i && pv[k] == DASHDASH(),
        decreases passin.len() - i,
    {
        if is_word(&passin[i], &dd) {
            dashdash = true;
        }
        assert(pv[i as int] == passin@[i as int]@);
        i += 1;
    }
    let word = match c {
        SetColor::Never => lit_color_never(),
        SetColor::Auto => lit_color_auto(),
        _ => lit_color_always(),
    };
    let mut pre: Vec<String> = Vec::new();
    if c == SetColor::Unset {
        pre.push(string_of(&lit_color_always()));
    }
    let mut after: Vec<String> = Vec::new();
    if !dashdash {
        after.push(string_of(&dd));
    }
    after.push(string_of(&word));
    let skip: usize = if passin.len() >= 2 && ends_with_exec(
        &chars_of(passin[0].as_str()),
        &lit_bin_name(),
    ) && is_word(&passin[1], &lit_subcommand()) {
        2
    } else if passin.len() >= 1 {
        1
    } else {
        0
    };
    assert(skip == skipped(pv)) by {
        if passin.len() >= 2 {
            assert(pv[0] == passin@[0]@ && pv[1] == passin@[1]@);
        }
    }
    let mut args: Vec<String> = Vec::new();
    let mut help = false;
    let long = lit_help_long();
    let short = lit_help_short();
    let nocapture = lit_nocapture();
    let mut j: usize = skip;
    assert(pv.subrange(skip as int, skip as int) =~= seq![]);
    while j < passin.len()
        invariant
            skip <= j <= passin.len(),
            pv == string_views(passin@),
            long@ == HELP_LONG(),
            short@ == HELP_SHORT(),
            nocapture@ == NOCAPTURE(),
            string_views(args@) == without_nocapture(pv.subrange(skip as int, j as int)),
            help == exists|k: int|
                skip <= k < j && (passin@[k]@ == HELP_LONG() || passin@[k]@ == HELP_SHORT()),
        decreases passin.len() - j,
    {
        if is_word(&passin[j], &long) || is_word(&passin[j], &short) {
            help = true;
        }
        assert(pv[j as int] == passin@[j as int]@);
        if !is_word(&passin[j], &nocapture) {
            let a = string_of(&chars_of(passin[j].as_str()));
            let ghost before = string_views(args@);
            args.push(a);
            assert(string_views(args@) =~= before.push(passin@[j as int]@));
        }
        j += 1;
        assert(pv.subrange(skip as int, j as int) =~= pv.subrange(skip as int, j - 1).push(
            pv[j - 1],
        ));
        assert(pv.subrange(skip as int, j as int).drop_last() =~= pv.subrange(skip as int, j - 1));
    }
    proof {
        assert(string_views(pre@) =~= (if c == SetColor::Unset {
            seq![COLOR_ALWAYS()]
        } else {
            Seq::<Seq<char>>::empty()
        }));
        assert(dashdash == pv.contains(DASHDASH()));
        assert(string_views(after@) =~= (if pv.contains(DASHDASH()) {
            seq![color_arg(c)]
        } else {
            seq![DASHDASH(), color_arg(c)]
        }));
    }
    ForwardPlan { pre, args, after, help }
}

} // verus!
