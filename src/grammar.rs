//! The line grammar of the two streams: runner announcements, section
//! headers, per-test outcome lines and summary lines.
//!
//! Each recogniser is a spec function on one line (a `Seq<char>` without
//! `'\n'`) and an executable function proved to compute it.

use crate::text::{blank, copy_range, is_blank, is_digit};
use vstd::prelude::*;

verus! {

/// `s[i..]` starts with `lit`.
pub open spec fn has_at(s: Seq<char>, i: int, lit: Seq<char>) -> bool {
    0 <= i && i + lit.len() <= s.len() && s.subrange(i, i + lit.len()) == lit
}

/// The end of the run of non-blank characters that starts at `i`.
pub open spec fn token_end(s: Seq<char>, i: int) -> int
    decreases s.len() - i,
{
    if i < 0 || i >= s.len() || is_blank(s[i]) {
        i
    } else {
        token_end(s, i + 1)
    }
}

/// The end of the run of blank characters that starts at `i`.
pub open spec fn blank_end(s: Seq<char>, i: int) -> int
    decreases s.len() - i,
{
    if i < 0 || i >= s.len() || !is_blank(s[i]) {
        i
    } else {
        blank_end(s, i + 1)
    }
}

/// The end of the run of decimal digits that starts at `i`.
pub open spec fn digits_end(s: Seq<char>, i: int) -> int
    decreases s.len() - i,
{
    if i < 0 || i >= s.len() || !is_digit(s[i]) {
        i
    } else {
        digits_end(s, i + 1)
    }
}

/// The number written by the decimal digits `d`.
pub open spec fn digits_val(d: Seq<char>) -> nat
    decreases d.len(),
{
    if d.len() == 0 {
        0
    } else {
        digits_val(d.drop_last()) * 10 + ((d.last() as u32) - 48) as nat
    }
}

/// The number written by `d`, where it is at most `bound`.
pub open spec fn bounded_val(d: Seq<char>, bound: nat) -> Option<nat> {
    if digits_val(d) <= bound {
        Some(digits_val(d))
    } else {
        None
    }
}

pub proof fn lemma_blank_end(s: Seq<char>, i: int)
    requires
        0 <= i <= s.len(),
    ensures
        i <= blank_end(s, i) <= s.len(),
{
    lemma_scan_ends(s, i);
}

proof fn lemma_scan_ends(s: Seq<char>, i: int)
    requires
        0 <= i <= s.len(),
    ensures
        i <= token_end(s, i) <= s.len(),
        forall|k: int| i <= k < token_end(s, i) ==> !is_blank(s[k]),
        token_end(s, i) < s.len() ==> is_blank(s[token_end(s, i)]),
        i <= blank_end(s, i) <= s.len(),
        forall|k: int| i <= k < blank_end(s, i) ==> is_blank(s[k]),
        i <= digits_end(s, i) <= s.len(),
        forall|k: int| i <= k < digits_end(s, i) ==> is_digit(s[k]),
    decreases s.len() - i,
{
    if i < s.len() {
        lemma_scan_ends(s, i + 1);
    }
}

proof fn lemma_digits_val_grows(d: Seq<char>, k: int)
    requires
        0 <= k <= d.len(),
        forall|j: int| 0 <= j < d.len() ==> is_digit(d[j]),
    ensures
        digits_val(d.subrange(0, k)) <= digits_val(d),
    decreases d.len(),
{
    if k < d.len() {
        assert(d.drop_last() =~= d.subrange(0, d.len() - 1));
        lemma_digits_val_grows(d.drop_last(), k);
        assert(d.drop_last().subrange(0, k) =~= d.subrange(0, k));
    } else {
        assert(d.subrange(0, k) =~= d);
    }
}

pub fn has_at_exec(s: &Vec<char>, i: usize, lit: &Vec<char>) -> (r: bool)
    ensures
        r == has_at(s@, i as int, lit@),
{
    if i > s.len() || lit.len() > s.len() - i {
        return false;
    }
    let mut k: usize = 0;
    while k < lit.len()
        invariant
            k <= lit.len(),
            i + lit.len() <= s.len(),
            s@.subrange(i as int, i + k) == lit@.subrange(0, k as int),
        decreases lit.len() - k,
    {
        if s[i + k] != lit[k] {
            assert(s@.subrange(i as int, i + lit.len())[k as int] != lit@[k as int]);
            return false;
        }
        k += 1;
        assert(s@.subrange(i as int, i + k) =~= lit@.subrange(0, k as int));
    }
    assert(lit@.subrange(0, lit.len() as int) =~= lit@);
    true
}

pub fn token_end_exec(s: &Vec<char>, i: usize) -> (r: usize)
    requires
        i <= s.len(),
    ensures
        r == token_end(s@, i as int),
{
    let mut j: usize = i;
    while j < s.len() && !blank(s[j])
        invariant
            i <= j <= s.len(),
            token_end(s@, i as int) == token_end(s@, j as int),
        decreases s.len() - j,
    {
        j += 1;
    }
    j
}

pub fn blank_end_exec(s: &Vec<char>, i: usize) -> (r: usize)
    requires
        i <= s.len(),
    ensures
        r == blank_end(s@, i as int),
{
    let mut j: usize = i;
    while j < s.len() && blank(s[j])
        invariant
            i <= j <= s.len(),
            blank_end(s@, i as int) == blank_end(s@, j as int),
        decreases s.len() - j,
    {
        j += 1;
    }
    j
}

pub fn digits_end_exec(s: &Vec<char>, i: usize) -> (r: usize)
    requires
        i <= s.len(),
    ensures
        r == digits_end(s@, i as int),
{
    let mut j: usize = i;
    while j < s.len() && (s[j] as u32) >= 48 && (s[j] as u32) <= 57
        invariant
            i <= j <= s.len(),
            digits_end(s@, i as int) == digits_end(s@, j as int),
        decreases s.len() - j,
    {
        j += 1;
    }
    j
}

/// The number written by the digits `s[i..j]`, where it is at most `bound`.
pub fn parse_digits(s: &Vec<char>, i: usize, j: usize, bound: u64) -> (r: Option<u64>)
    requires
        i <= j <= s.len(),
        9 <= bound,
        forall|k: int| i <= k < j ==> is_digit(s@[k]),
    ensures
        match bounded_val(s@.subrange(i as int, j as int), bound as nat) {
            Some(v) => r == Some(v as u64),
            None => r is None,
        },
{
    let ghost d = s@.subrange(i as int, j as int);
    let mut v: u64 = 0;
    let mut k: usize = i;
    while k < j
        invariant
            i <= k <= j <= s.len(),
            d == s@.subrange(i as int, j as int),
            forall|m: int| 0 <= m < d.len() ==> is_digit(d[m]),
            v as nat == digits_val(d.subrange(0, k - i)),
            v <= bound,
            9 <= bound,
        decreases j - k,
    {
        assert(s@[k as int] == d[k - i]);
        let c = (s[k] as u32 - 48) as u64;
        assert(d.subrange(0, k + 1 - i).drop_last() =~= d.subrange(0, k - i));
        assert(d.subrange(0, k + 1 - i).last() == s@[k as int]);
        if v > (bound - c) / 10 {
            proof {
                assert(v * 10 + c > bound) by (nonlinear_arith)
                    requires
                        v > (bound - c) / 10,
                        c <= 9,
                        9 <= bound,
                ;
                lemma_digits_val_grows(d, k + 1 - i);
            }
            return None;
        }
        assert(v * 10 + c <= bound) by (nonlinear_arith)
            requires
                v <= (bound - c) / 10,
                c <= 9,
                9 <= bound,
        ;
        v = v * 10 + c;
        k += 1;
    }
    assert(d.subrange(0, j - i) =~= d);
    Some(v)
}

pub open spec fn TEST_WORD() -> Seq<char> {
    seq!['t', 'e', 's', 't', ' ']
}

fn lit_test_word() -> (r: Vec<char>)
    ensures
        r@ == TEST_WORD(),
{
    let r: Vec<char> = vec!['t', 'e', 's', 't', ' '];
    assert(r@ =~= TEST_WORD());
    r
}

pub open spec fn SHOULD_PANIC() -> Seq<char> {
    seq![' ', '-', ' ', 's', 'h', 'o', 'u', 'l', 'd', ' ', 'p', 'a', 'n', 'i', 'c']
}

fn lit_should_panic() -> (r: Vec<char>)
    ensures
        r@ == SHOULD_PANIC(),
{
    let r: Vec<char> = vec![' ', '-', ' ', 's', 'h', 'o', 'u', 'l', 'd', ' ', 'p', 'a', 'n', 'i', 'c'];
    assert(r@ =~= SHOULD_PANIC());
    r
}

pub open spec fn DASH() -> Seq<char> {
    seq![' ', '-', ' ']
}

fn lit_dash() -> (r: Vec<char>)
    ensures
        r@ == DASH(),
{
    let r: Vec<char> = vec![' ', '-', ' '];
    assert(r@ =~= DASH());
    r
}

pub open spec fn LINE_OPEN() -> Seq<char> {
    seq!['(', 'l', 'i', 'n', 'e', ' ']
}

fn lit_line_open() -> (r: Vec<char>)
    ensures
        r@ == LINE_OPEN(),
{
    let r: Vec<char> = vec!['(', 'l', 'i', 'n', 'e', ' '];
    assert(r@ =~= LINE_OPEN());
    r
}

pub open spec fn COMPILE_FAIL() -> Seq<char> {
    seq![' ', '-', ' ', 'c', 'o', 'm', 'p', 'i', 'l', 'e', ' ', 'f', 'a', 'i', 'l']
}

fn lit_compile_fail() -> (r: Vec<char>)
    ensures
        r@ == COMPILE_FAIL(),
{
    let r: Vec<char> = vec![' ', '-', ' ', 'c', 'o', 'm', 'p', 'i', 'l', 'e', ' ', 'f', 'a', 'i', 'l'];
    assert(r@ =~= COMPILE_FAIL());
    r
}

pub open spec fn COMPILE() -> Seq<char> {
    seq![' ', '-', ' ', 'c', 'o', 'm', 'p', 'i', 'l', 'e']
}

fn lit_compile() -> (r: Vec<char>)
    ensures
        r@ == COMPILE(),
{
    let r: Vec<char> = vec![' ', '-', ' ', 'c', 'o', 'm', 'p', 'i', 'l', 'e'];
    assert(r@ =~= COMPILE());
    r
}

pub open spec fn DOTS() -> Seq<char> {
    seq![' ', '.', '.', '.', ' ']
}

fn lit_dots() -> (r: Vec<char>)
    ensures
        r@ == DOTS(),
{
    let r: Vec<char> = vec![' ', '.', '.', '.', ' '];
    assert(r@ =~= DOTS());
    r
}

pub open spec fn RUNNING_HEAD() -> Seq<char> {
    seq!['r', 'u', 'n', 'n', 'i', 'n', 'g', ' ']
}

fn lit_running_head() -> (r: Vec<char>)
    ensures
        r@ == RUNNING_HEAD(),
{
    let r: Vec<char> = vec!['r', 'u', 'n', 'n', 'i', 'n', 'g', ' '];
    assert(r@ =~= RUNNING_HEAD());
    r
}

pub open spec fn TEST_TAIL() -> Seq<char> {
    seq![' ', 't', 'e', 's', 't']
}

fn lit_test_tail() -> (r: Vec<char>)
    ensures
        r@ == TEST_TAIL(),
{
    let r: Vec<char> = vec![' ', 't', 'e', 's', 't'];
    assert(r@ =~= TEST_TAIL());
    r
}

pub open spec fn RESULT_HEAD() -> Seq<char> {
    seq!['t', 'e', 's', 't', ' ', 'r', 'e', 's', 'u', 'l', 't', ':', ' ']
}

fn lit_result_head() -> (r: Vec<char>)
    ensures
        r@ == RESULT_HEAD(),
{
    let r: Vec<char> = vec!['t', 'e', 's', 't', ' ', 'r', 'e', 's', 'u', 'l', 't', ':', ' '];
    assert(r@ =~= RESULT_HEAD());
    r
}

pub open spec fn OK_WORD() -> Seq<char> {
    seq!['o', 'k']
}

pub open spec fn PASSED() -> Seq<char> {
    seq![' ', 'p', 'a', 's', 's', 'e', 'd', ';']
}

fn lit_passed() -> (r: Vec<char>)
    ensures
        r@ == PASSED(),
{
    let r: Vec<char> = vec![' ', 'p', 'a', 's', 's', 'e', 'd', ';'];
    assert(r@ =~= PASSED());
    r
}

pub open spec fn FAILED() -> Seq<char> {
    seq![' ', 'f', 'a', 'i', 'l', 'e', 'd', ';']
}

fn lit_failed() -> (r: Vec<char>)
    ensures
        r@ == FAILED(),
{
    let r: Vec<char> = vec![' ', 'f', 'a', 'i', 'l', 'e', 'd', ';'];
    assert(r@ =~= FAILED());
    r
}

pub open spec fn IGNORED() -> Seq<char> {
    seq![' ', 'i', 'g', 'n', 'o', 'r', 'e', 'd', ';']
}

fn lit_ignored() -> (r: Vec<char>)
    ensures
        r@ == IGNORED(),
{
    let r: Vec<char> = vec![' ', 'i', 'g', 'n', 'o', 'r', 'e', 'd', ';'];
    assert(r@ =~= IGNORED());
    r
}

pub open spec fn MEASURED() -> Seq<char> {
    seq![' ', 'm', 'e', 'a', 's', 'u', 'r', 'e', 'd', ';']
}

fn lit_measured() -> (r: Vec<char>)
    ensures
        r@ == MEASURED(),
{
    let r: Vec<char> = vec![' ', 'm', 'e', 'a', 's', 'u', 'r', 'e', 'd', ';'];
    assert(r@ =~= MEASURED());
    r
}

pub open spec fn FILTERED() -> Seq<char> {
    seq![' ', 'f', 'i', 'l', 't', 'e', 'r', 'e', 'd', ' ', 'o', 'u', 't', ';']
}

fn lit_filtered() -> (r: Vec<char>)
    ensures
        r@ == FILTERED(),
{
    let r: Vec<char> = vec![' ', 'f', 'i', 'l', 't', 'e', 'r', 'e', 'd', ' ', 'o', 'u', 't', ';'];
    assert(r@ =~= FILTERED());
    r
}

pub open spec fn FINISHED() -> Seq<char> {
    seq![' ', 'f', 'i', 'n', 'i', 's', 'h', 'e', 'd', ' ', 'i', 'n', ' ']
}

fn lit_finished() -> (r: Vec<char>)
    ensures
        r@ == FINISHED(),
{
    let r: Vec<char> = vec![' ', 'f', 'i', 'n', 'i', 's', 'h', 'e', 'd', ' ', 'i', 'n', ' '];
    assert(r@ =~= FINISHED());
    r
}

pub open spec fn RUNNING_WORD() -> Seq<char> {
    seq!['R', 'u', 'n', 'n', 'i', 'n', 'g', ' ']
}

fn lit_running_word() -> (r: Vec<char>)
    ensures
        r@ == RUNNING_WORD(),
{
    let r: Vec<char> = vec!['R', 'u', 'n', 'n', 'i', 'n', 'g', ' '];
    assert(r@ =~= RUNNING_WORD());
    r
}

pub open spec fn UNITTESTS() -> Seq<char> {
    seq!['u', 'n', 'i', 't', 't', 'e', 's', 't', 's', ' ']
}

fn lit_unittests() -> (r: Vec<char>)
    ensures
        r@ == UNITTESTS(),
{
    let r: Vec<char> = vec!['u', 'n', 'i', 't', 't', 'e', 's', 't', 's', ' '];
    assert(r@ =~= UNITTESTS());
    r
}

pub open spec fn OPEN_PAREN() -> Seq<char> {
    seq![' ', '(']
}

fn lit_open_paren() -> (r: Vec<char>)
    ensures
        r@ == OPEN_PAREN(),
{
    let r: Vec<char> = vec![' ', '('];
    assert(r@ =~= OPEN_PAREN());
    r
}

pub open spec fn DOC_TESTS() -> Seq<char> {
    seq!['D', 'o', 'c', '-', 't', 'e', 's', 't', 's', ' ']
}

fn lit_doc_tests() -> (r: Vec<char>)
    ensures
        r@ == DOC_TESTS(),
{
    let r: Vec<char> = vec!['D', 'o', 'c', '-', 't', 'e', 's', 't', 's', ' '];
    assert(r@ =~= DOC_TESTS());
    r
}

// ---------------------------------------------------------------- outcome lines
// `test <path>[ - should panic][ - [<item> ](line <N>)[ - compile[ fail]]] ... <status>[, <reason>]`

/// After the path: past an optional ` - should panic`.
pub open spec fn after_should_panic(l: Seq<char>, p: int) -> int {
    if has_at(l, p, SHOULD_PANIC()) {
        p + 15
    } else {
        p
    }
}

/// A `(line <N>)` tag at `q`: the index just past its `)`.
pub open spec fn line_tag_end(l: Seq<char>, q: int) -> Option<int> {
    if has_at(l, q, LINE_OPEN()) {
        let d = digits_end(l, q + 6);
        if d > q + 6 && d < l.len() && l[d] == ')' {
            Some(d + 1)
        } else {
            None
        }
    } else {
        None
    }
}

/// After the ` - ` of a doc-test suffix: an item path and a space (where
/// present), then the line tag.
pub open spec fn item_end(l: Seq<char>, q: int) -> Option<int> {
    let t = token_end(l, q);
    if t > q && t < l.len() && l[t] == ' ' && line_tag_end(l, t + 1) is Some {
        line_tag_end(l, t + 1)
    } else {
        line_tag_end(l, q)
    }
}

/// Past an optional ` - compile` or ` - compile fail`.
pub open spec fn compile_end(l: Seq<char>, e: int) -> int {
    if has_at(l, e, COMPILE_FAIL()) {
        e + 15
    } else if has_at(l, e, COMPILE()) {
        e + 10
    } else {
        e
    }
}

/// Past an optional doc-test suffix that starts at `p`.
pub open spec fn doc_end(l: Seq<char>, p: int) -> int {
    if has_at(l, p, DASH()) {
        match item_end(l, p + 3) {
            Some(e) => compile_end(l, e),
            None => p,
        }
    } else {
        p
    }
}

/// A status: a non-blank word, alone or followed by `, ` and a reason.
pub open spec fn status_ok(st: Seq<char>) -> bool {
    let t = token_end(st, 0);
    t > 0 && (t == st.len() || (t >= 2 && st[t - 1] == ',' && st[t] == ' '))
}

/// Where `l` is an outcome line: the end of its path (with suffixes), which
/// starts at index 5; the status starts 5 characters later.
pub open spec fn outcome_end(l: Seq<char>) -> Option<int> {
    if has_at(l, 0, TEST_WORD()) && token_end(l, 5) > 5 {
        let p = doc_end(l, after_should_panic(l, token_end(l, 5)));
        if has_at(l, p, DOTS()) && status_ok(l.subrange(p + 5, l.len() as int)) {
            Some(p)
        } else {
            None
        }
    } else {
        None
    }
}

/// The path (with its suffixes) and the status of an outcome line.
pub open spec fn outcome_of(l: Seq<char>) -> Option<(Seq<char>, Seq<char>)> {
    match outcome_end(l) {
        Some(p) => Some((l.subrange(5, p), l.subrange(p + 5, l.len() as int))),
        None => None,
    }
}

pub open spec fn is_outcome(l: Seq<char>) -> bool {
    outcome_end(l) is Some
}

fn line_tag_end_exec(l: &Vec<char>, q: usize) -> (r: Option<usize>)
    requires
        q <= l.len(),
    ensures
        r matches Some(e) ==> line_tag_end(l@, q as int) == Some(e as int),
        r is None ==> line_tag_end(l@, q as int) is None,
{
    if has_at_exec(l, q, &lit_line_open()) {
        let d = digits_end_exec(l, q + 6);
        if d > q + 6 && d < l.len() && l[d] == ')' {
            return Some(d + 1);
        }
    }
    None
}

fn item_end_exec(l: &Vec<char>, q: usize) -> (r: Option<usize>)
    requires
        q <= l.len(),
    ensures
        r matches Some(e) ==> item_end(l@, q as int) == Some(e as int),
        r is None ==> item_end(l@, q as int) is None,
{
    let t = token_end_exec(l, q);
    if t > q && t < l.len() && l[t] == ' ' {
        if let Some(e) = line_tag_end_exec(l, t + 1) {
            return Some(e);
        }
    }
    line_tag_end_exec(l, q)
}

fn doc_end_exec(l: &Vec<char>, p: usize) -> (r: usize)
    requires
        p <= l.len(),
    ensures
        r == doc_end(l@, p as int),
        r <= l.len(),
{
    proof {
        lemma_scan_ends(l@, p as int);
    }
    if has_at_exec(l, p, &lit_dash()) {
        match item_end_exec(l, p + 3) {
            Some(e) => {
                if has_at_exec(l, e, &lit_compile_fail()) {
                    e + 15
                } else if has_at_exec(l, e, &lit_compile()) {
                    e + 10
                } else {
                    e
                }
            },
            None => p,
        }
    } else {
        p
    }
}

/// Recognises an outcome line; see [`outcome_end`].
pub fn outcome_end_exec(l: &Vec<char>) -> (r: Option<usize>)
    ensures
        r matches Some(p) ==> outcome_end(l@) == Some(p as int) && 5 <= p && p + 5 <= l.len(),
        r is None ==> outcome_end(l@) is None,
{
    if !has_at_exec(l, 0, &lit_test_word()) {
        return None;
    }
    let t = token_end_exec(l, 5);
    if t <= 5 {
        return None;
    }
    proof {
        lemma_scan_ends(l@, 5);
    }
    let a = if has_at_exec(l, t, &lit_should_panic()) {
        assert(SHOULD_PANIC().len() == 15);
        assert(has_at(l@, t as int, SHOULD_PANIC()));
        assert(t + 15 <= l.len());
        t + 15
    } else {
        t
    };
    let p = doc_end_exec(l, a);
    if !has_at_exec(l, p, &lit_dots()) {
        return None;
    }
    let st = copy_range(l, p + 5, l.len());
    let e = token_end_exec(&st, 0);
    proof {
        lemma_scan_ends(st@, 0);
    }
    if e > 0 && (e == st.len() || (e >= 2 && st[e - 1] == ',' && st[e] == ' ')) {
        proof {
            lemma_scan_ends(l@, t as int);
        }
        Some(p)
    } else {
        None
    }
}

// ---------------------------------------------------------------- section headers
// `running <N> test[s]`

/// The count that a section header announces, where `l` is one and the
/// count fits in a `u32`.
pub open spec fn header_count(l: Seq<char>) -> Option<nat> {
    if has_at(l, 0, RUNNING_HEAD()) {
        let d = digits_end(l, 8);
        if d > 8 && has_at(l, d, TEST_TAIL()) {
            bounded_val(l.subrange(8, d), u32::MAX as nat)
        } else {
            None
        }
    } else {
        None
    }
}

pub open spec fn is_header(l: Seq<char>) -> bool {
    header_count(l) is Some
}

/// The text of a section header that the header line `l` starts with:
/// `running <N> test`, with its `s` where there is one.
pub open spec fn header_text(l: Seq<char>) -> Seq<char> {
    let e = digits_end(l, 8) + 5;
    if e < l.len() && l[e] == 's' {
        l.subrange(0, e + 1)
    } else {
        l.subrange(0, e)
    }
}

/// The header text of a header line; see [`header_text`].
pub fn header_text_exec(l: &Vec<char>) -> (r: Vec<char>)
    requires
        is_header(l@),
    ensures
        r@ == header_text(l@),
{
    let d = digits_end_exec(l, 8);
    proof {
        lemma_scan_ends(l@, 8);
    }
    assert(TEST_TAIL().len() == 5);
    assert(has_at(l@, d as int, TEST_TAIL()));
    assert(d + 5 <= l.len());
    let e = d + 5;
    if e < l.len() && l[e] == 's' {
        copy_range(l, 0, e + 1)
    } else {
        copy_range(l, 0, e)
    }
}

/// Recognises a section header; see [`header_count`].
pub fn header_count_exec(l: &Vec<char>) -> (r: Option<u32>)
    ensures
        r matches Some(n) ==> header_count(l@) == Some(n as nat),
        r is None ==> header_count(l@) is None,
{
    if !has_at_exec(l, 0, &lit_running_head()) {
        return None;
    }
    let d = digits_end_exec(l, 8);
    if d > 8 && has_at_exec(l, d, &lit_test_tail()) {
        proof {
            lemma_scan_ends(l@, 8);
        }
        match parse_digits(l, 8, d, u32::MAX as u64) {
            Some(v) => Some(v as u32),
            None => None,
        }
    } else {
        None
    }
}


// ---------------------------------------------------------------- summary lines
// `test result: <ok>. <P> passed; <F> failed; <I> ignored; <M> measured; <O> filtered out; finished in <T>s`

/// The fields of a summary line.
#[derive(Clone, Copy, Debug, PartialEq, Eq)]
pub struct Summary {
    pub ok: bool,
    pub passed: u32,
    pub failed: u32,
    pub ignored: u32,
    pub measured: u32,
    pub filtered_out: u32,
    /// The elapsed time, in nanoseconds.
    pub nanos: u64,
}

pub open spec fn pow10(n: nat) -> nat
    decreases n,
{
    if n == 0 {
        1
    } else {
        10 * pow10((n - 1) as nat)
    }
}

/// The first nine fraction digits `f` of a number of seconds, padded with
/// zeros: they write its nanoseconds.
pub open spec fn nine(f: Seq<char>) -> Seq<char> {
    Seq::new(9, |k: int| if k < f.len() { f[k] } else { '0' })
}

pub open spec fn frac_nanos(f: Seq<char>) -> nat {
    digits_val(nine(f))
}

/// The nanoseconds in a number of seconds written `<digits>[.<digits>]`,
/// where that fits in a `u64`.
pub open spec fn nanos_of(t: Seq<char>) -> Option<nat> {
    let d = digits_end(t, 0);
    if d == 0 {
        None
    } else if d == t.len() {
        match bounded_val(t, u64::MAX as nat / 1_000_000_000) {
            Some(w) => Some(w * 1_000_000_000),
            None => None,
        }
    } else if t[d] == '.' && digits_end(t, d + 1) == t.len() {
        let total = digits_val(t.subrange(0, d)) * 1_000_000_000 + frac_nanos(
            t.subrange(d + 1, t.len() as int),
        );
        if total <= u64::MAX {
            Some(total)
        } else {
            None
        }
    } else {
        None
    }
}

/// ` <digits><word>` at `i`: the count and the index past `word`.
pub open spec fn count_field(l: Seq<char>, i: int, word: Seq<char>) -> Option<(nat, int)> {
    if 0 <= i < l.len() && l[i] == ' ' {
        let d = digits_end(l, i + 1);
        if d > i + 1 && has_at(l, d, word) {
            match bounded_val(l.subrange(i + 1, d), u32::MAX as nat) {
                Some(v) => Some((v, d + word.len())),
                None => None,
            }
        } else {
            None
        }
    } else {
        None
    }
}

/// After the five counts, from `i`: ` finished in <T>s` to the end of the line.
pub open spec fn time_field(l: Seq<char>, i: int) -> Option<nat> {
    if has_at(l, i, FINISHED()) && l.len() >= i + 15 && token_end(l, i + 13) == l.len() && l.last()
        == 's' {
        nanos_of(l.subrange(i + 13, l.len() - 1))
    } else {
        None
    }
}

/// The fields of a summary line, where `l` is one and its numbers fit.
pub open spec fn summary_of(l: Seq<char>) -> Option<Summary> {
    let t = token_end(l, 13);
    if has_at(l, 0, RESULT_HEAD()) && t >= 15 && l[t - 1] == '.' {
        match count_field(l, t, PASSED()) {
            None => None,
            Some((p, i1)) => match count_field(l, i1, FAILED()) {
                None => None,
                Some((f, i2)) => match count_field(l, i2, IGNORED()) {
                    None => None,
                    Some((g, i3)) => match count_field(l, i3, MEASURED()) {
                        None => None,
                        Some((m, i4)) => match count_field(l, i4, FILTERED()) {
                            None => None,
                            Some((o, i5)) => match time_field(l, i5) {
                                None => None,
                                Some(n) => Some(
                                    Summary {
                                        ok: l.subrange(13, t - 1) == OK_WORD(),
                                        passed: p as u32,
                                        failed: f as u32,
                                        ignored: g as u32,
                                        measured: m as u32,
                                        filtered_out: o as u32,
                                        nanos: n as u64,
                                    },
                                ),
                            },
                        },
                    },
                },
            },
        }
    } else {
        None
    }
}

proof fn lemma_digits_val_below(d: Seq<char>)
    requires
        forall|j: int| 0 <= j < d.len() ==> is_digit(d[j]),
    ensures
        digits_val(d) < pow10(d.len()),
    decreases d.len(),
{
    if d.len() > 0 {
        lemma_digits_val_below(d.drop_last());
        let a = digits_val(d.drop_last());
        let b = pow10(d.drop_last().len());
        let c = ((d.last() as u32) - 48) as nat;
        assert(a * 10 + c < 10 * b) by (nonlinear_arith)
            requires
                a < b,
                c <= 9,
        ;
    }
}

fn count_field_exec(l: &Vec<char>, i: usize, word: &Vec<char>) -> (r: Option<(u32, usize)>)
    ensures
        r matches Some((v, e)) ==> count_field(l@, i as int, word@) == Some((v as nat, e as int))
            && e <= l.len(),
        r is None ==> count_field(l@, i as int, word@) is None,
{
    if i >= l.len() || l[i] != ' ' {
        return None;
    }
    let d = digits_end_exec(l, i + 1);
    proof {
        lemma_scan_ends(l@, i + 1);
    }
    if d > i + 1 && has_at_exec(l, d, word) {
        match parse_digits(l, i + 1, d, u32::MAX as u64) {
            Some(v) => Some((v as u32, d + word.len())),
            None => None,
        }
    } else {
        None
    }
}

proof fn lemma_pow10_mono(a: nat, b: nat)
    requires
        a <= b,
    ensures
        1 <= pow10(a) <= pow10(b),
    decreases b,
{
    if b > a {
        lemma_pow10_mono(a, (b - 1) as nat);
    } else if b > 0 {
        lemma_pow10_mono(0, (b - 1) as nat);
    }
}

fn nanos_exec(t: &Vec<char>) -> (r: Option<u64>)
    ensures
        r matches Some(n) ==> nanos_of(t@) == Some(n as nat),
        r is None ==> nanos_of(t@) is None,
{
    let d = digits_end_exec(t, 0);
    proof {
        lemma_scan_ends(t@, 0);
    }
    if d == 0 {
        return None;
    }
    if d == t.len() {
        assert(t@.subrange(0, d as int) =~= t@);
        return match parse_digits(t, 0, d, 18_446_744_073) {
            Some(w) => {
                assert(w * 1_000_000_000 <= u64::MAX) by (nonlinear_arith)
                    requires
                        w <= 18_446_744_073,
                ;
                Some(w * 1_000_000_000)
            },
            None => None,
        };
    }
    if t[d] != '.' {
        return None;
    }
    let e = digits_end_exec(t, d + 1);
    if e != t.len() {
        return None;
    }
    proof {
        lemma_scan_ends(t@, d + 1);
        assert(pow10(9) == 1_000_000_000) by {
            reveal_with_fuel(pow10, 10);
        }
    }
    let ghost f = t@.subrange(d + 1, t.len() as int);
    let mut v: u64 = 0;
    let mut k: usize = 0;
    while k < 9
        invariant
            k <= 9,
            d + 1 <= t.len(),
            f == t@.subrange(d + 1, t.len() as int),
            forall|j: int| d + 1 <= j < t.len() ==> is_digit(t@[j]),
            v as nat == digits_val(nine(f).subrange(0, k as int)),
            v < pow10(k as nat),
            pow10(9) == 1_000_000_000,
        decreases 9 - k,
    {
        let c = if k < t.len() - (d + 1) {
            t[d + 1 + k]
        } else {
            '0'
        };
        assert(c == nine(f)[k as int]);
        let ghost p = nine(f).subrange(0, k + 1);
        assert(p.drop_last() =~= nine(f).subrange(0, k as int));
        let dig = (c as u32 - 48) as u64;
        proof {
            lemma_pow10_mono((k + 1) as nat, 9);
            assert(pow10((k + 1) as nat) == 10 * pow10(k as nat));
            assert(v * 10 + dig < pow10((k + 1) as nat)) by (nonlinear_arith)
                requires
                    v < pow10(k as nat),
                    dig <= 9,
                    pow10((k + 1) as nat) == 10 * pow10(k as nat),
            ;
        }
        v = v * 10 + dig;
        k += 1;
    }
    assert(nine(f).subrange(0, 9) =~= nine(f));
    let w = match parse_digits(t, 0, d, 18_446_744_073) {
        Some(w) => w,
        None => {
            return None;
        },
    };
    assert(w * 1_000_000_000 <= 18_446_744_073_000_000_000) by (nonlinear_arith)
        requires
            w <= 18_446_744_073,
    ;
    let whole = w * 1_000_000_000;
    if v > u64::MAX - whole {
        return None;
    }
    Some(whole + v)
}

/// Recognises a summary line; see [`summary_of`].
#[verifier::rlimit(40)]
pub fn summary_exec(l: &Vec<char>) -> (r: Option<Summary>)
    ensures
        r == summary_of(l@),
{
    if !has_at_exec(l, 0, &lit_result_head()) {
        return None;
    }
    let t = token_end_exec(l, 13);
    proof {
        lemma_scan_ends(l@, 13);
    }
    if t < 15 || l[t - 1] != '.' {
        return None;
    }
    let (p, i1) = match count_field_exec(l, t, &lit_passed()) {
        Some(x) => x,
        None => return None,
    };
    let (f, i2) = match count_field_exec(l, i1, &lit_failed()) {
        Some(x) => x,
        None => return None,
    };
    let (g, i3) = match count_field_exec(l, i2, &lit_ignored()) {
        Some(x) => x,
        None => return None,
    };
    let (m, i4) = match count_field_exec(l, i3, &lit_measured()) {
        Some(x) => x,
        None => return None,
    };
    let (o, i5) = match count_field_exec(l, i4, &lit_filtered()) {
        Some(x) => x,
        None => return None,
    };
    if !has_at_exec(l, i5, &lit_finished()) || l.len() - i5 < 15 {
        return None;
    }
    let e = token_end_exec(l, i5 + 13);
    if e != l.len() || l[l.len() - 1] != 's' {
        return None;
    }
    let tt = copy_range(l, i5 + 13, l.len() - 1);
    let n = match nanos_exec(&tt) {
        Some(n) => n,
        None => return None,
    };
    let okw = copy_range(l, 13, t - 1);
    let ok = okw.len() == 2 && okw[0] == 'o' && okw[1] == 'k';
    proof {
        assert(ok == (okw@ == OK_WORD())) by {
            if okw@ == OK_WORD() {
                assert(okw@[0] == 'o' && okw@[1] == 'k');
            }
            if ok {
                assert(okw@ =~= OK_WORD());
            }
        }
    }
    Some(
        Summary {
            ok,
            passed: p,
            failed: f,
            ignored: g,
            measured: m,
            filtered_out: o,
            nanos: n,
        },
    )
}


// ---------------------------------------------------------------- runner announcements
// `<blanks>Running [unittests ]<path> (<binary path>)` or `[<blanks>]Doc-tests <name>`

/// What a runner announcement says, as spec values.
pub enum Announced {
    Running { unit: bool, path: Seq<char>, binary: Seq<char> },
    Doc { name: Seq<char> },
}

/// What a runner announcement says.
pub enum Announcement {
    Running { is_unit: bool, path: Vec<char>, binary: Vec<char> },
    DocTests { name: Vec<char> },
}

impl Announcement {
    pub open spec fn view(&self) -> Announced {
        match self {
            Announcement::Running { is_unit, path, binary } => Announced::Running {
                unit: *is_unit,
                path: path@,
                binary: binary@,
            },
            Announcement::DocTests { name } => Announced::Doc { name: name@ },
        }
    }
}

/// The index of the last `)` before `j`, or -1.
pub open spec fn last_close(l: Seq<char>, j: int) -> int
    decreases j,
{
    if j <= 0 || j > l.len() {
        -1
    } else if l[j - 1] == ')' {
        j - 1
    } else {
        last_close(l, j - 1)
    }
}

/// `<path> (<binary>)` from `q`, where the binary path ends at the last `)` of
/// the line: the end of the path and the index of that `)`.
pub open spec fn run_rest(l: Seq<char>, q: int) -> Option<(int, int)> {
    let t = token_end(l, q);
    if t > q && has_at(l, t, OPEN_PAREN()) && last_close(l, l.len() as int) >= t + 2 {
        Some((t, last_close(l, l.len() as int)))
    } else {
        None
    }
}

pub open spec fn running_of(l: Seq<char>, q: int, unit: bool) -> Option<Announced> {
    match run_rest(l, q) {
        Some((t, c)) => Some(
            Announced::Running { unit, path: l.subrange(q, t), binary: l.subrange(t + 2, c) },
        ),
        None => None,
    }
}

/// What the line `l` announces, where it is an announcement.
pub open spec fn announcement_of(l: Seq<char>) -> Option<Announced> {
    let b = blank_end(l, 0);
    if b > 0 && has_at(l, b, RUNNING_WORD()) {
        if has_at(l, b + 8, UNITTESTS()) && run_rest(l, b + 18) is Some {
            running_of(l, b + 18, true)
        } else {
            running_of(l, b + 8, false)
        }
    } else if has_at(l, b, DOC_TESTS()) && l.len() > b + 10 && token_end(l, b + 10) == l.len() {
        Some(Announced::Doc { name: l.subrange(b + 10, l.len() as int) })
    } else {
        None
    }
}

proof fn lemma_last_close(l: Seq<char>, j: int)
    requires
        0 <= j <= l.len(),
    ensures
        -1 <= last_close(l, j) < j,
        last_close(l, j) >= 0 ==> l[last_close(l, j)] == ')',
        forall|k: int| last_close(l, j) < k < j ==> l[k] != ')',
    decreases j,
{
    if j > 0 && l[j - 1] != ')' {
        lemma_last_close(l, j - 1);
    }
}

fn last_close_exec(l: &Vec<char>) -> (r: Option<usize>)
    ensures
        r matches Some(c) ==> last_close(l@, l.len() as int) == c as int,
        r is None ==> last_close(l@, l.len() as int) == -1,
{
    let mut j: usize = l.len();
    while j > 0 && l[j - 1] != ')'
        invariant
            j <= l.len(),
            last_close(l@, l.len() as int) == last_close(l@, j as int),
        decreases j,
    {
        j -= 1;
    }
    if j == 0 {
        None
    } else {
        Some(j - 1)
    }
}

fn run_rest_exec(l: &Vec<char>, q: usize) -> (r: Option<(usize, usize)>)
    requires
        q <= l.len(),
    ensures
        r matches Some((t, c)) ==> run_rest(l@, q as int) == Some((t as int, c as int)) && q < t
            && t + 2 <= c < l.len(),
        r is None ==> run_rest(l@, q as int) is None,
{
    let t = token_end_exec(l, q);
    proof {
        lemma_scan_ends(l@, q as int);
        lemma_last_close(l@, l.len() as int);
    }
    if t > q && has_at_exec(l, t, &lit_open_paren()) {
        match last_close_exec(l) {
            Some(c) => {
                if c >= t + 2 {
                    return Some((t, c));
                }
            },
            None => {},
        }
    }
    None
}

/// Recognises a runner announcement; see [`announcement_of`].
pub fn announcement_exec(l: &Vec<char>) -> (r: Option<Announcement>)
    ensures
        r matches Some(a) ==> announcement_of(l@) == Some(a@),
        r is None ==> announcement_of(l@) is None,
{
    let b = blank_end_exec(l, 0);
    proof {
        lemma_scan_ends(l@, 0);
    }
    if b > 0 && has_at_exec(l, b, &lit_running_word()) {
        assert(RUNNING_WORD().len() == 8 && UNITTESTS().len() == 10);
        assert(b + 8 <= l.len());
        let unit = has_at_exec(l, b + 8, &lit_unittests());
        if unit {
            assert(b + 18 <= l.len());
            if let Some((t, c)) = run_rest_exec(l, b + 18) {
                let path = copy_range(l, b + 18, t);
                let binary = copy_range(l, t + 2, c);
                return Some(Announcement::Running { is_unit: true, path, binary });
            }
        }
        match run_rest_exec(l, b + 8) {
            Some((t, c)) => {
                let path = copy_range(l, b + 8, t);
                let binary = copy_range(l, t + 2, c);
                Some(Announcement::Running { is_unit: false, path, binary })
            },
            None => None,
        }
    } else if has_at_exec(l, b, &lit_doc_tests()) && l.len() - b > 10 {
        let e = token_end_exec(l, b + 10);
        if e == l.len() {
            let name = copy_range(l, b + 10, l.len());
            Some(Announcement::DocTests { name })
        } else {
            None
        }
    } else {
        None
    }
}

} // verus!
