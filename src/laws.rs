//! Laws that relate the library's functions, proved over their contracts.

use crate::grammar::Announced;
use crate::order::lemma_sorted_unique;
use crate::grammar::{bounded_val, header_count};
use crate::parsing::{
    announcements, first_bad, stdout_failure, streams_error, Error,
    merge_all, runner_stats, PkgTest,
    block_failure, block_lines, first_failure, headers, lemma_headers, pairs_match, stdout_blocks,
    streams_ok, classify, correlate, describes, first_key, group_keys, grouped, key_index, labeled, merged,
    outcomes, runner_is, string_views, zero_stats, Data, GroupView, Stats, TestInfo,
    TestRunner,
};
use crate::prettify::{built, entry_rows, lemma_built_any_order, paths_apart, NodeView};
use vstd::prelude::*;

verus! {

/// The number of runners in the groups `g`.
pub open spec fn group_sizes(g: Seq<GroupView>) -> nat
    decreases g.len(),
{
    if g.len() == 0 {
        0
    } else {
        group_sizes(g.drop_last()) + g.last().1.len()
    }
}

/// The number of the pairs `p[..j]` whose block holds tests.
pub open spec fn nonempty_blocks(p: Seq<(TestRunner, TestInfo)>, j: int) -> nat
    decreases j,
{
    if j <= 0 || j > p.len() {
        0
    } else if p[j - 1].1.stats.total > 0 {
        nonempty_blocks(p, j - 1) + 1
    } else {
        nonempty_blocks(p, j - 1)
    }
}

proof fn lemma_labeled_len(p: Seq<(TestRunner, TestInfo)>, j: int)
    requires
        0 <= j <= p.len(),
    ensures
        labeled(p, j).len() == nonempty_blocks(p, j),
    decreases j,
{
    if j > 0 {
        lemma_labeled_len(p, j - 1);
    }
}

proof fn lemma_sizes_update(g: Seq<GroupView>, i: int, x: GroupView)
    requires
        0 <= i < g.len(),
    ensures
        group_sizes(g.update(i, x)) + g[i].1.len() == group_sizes(g) + x.1.len(),
    decreases g.len(),
{
    if i < g.len() - 1 {
        assert(g.update(i, x).drop_last() =~= g.drop_last().update(i, x));
        lemma_sizes_update(g.drop_last(), i, x);
    } else {
        assert(g.update(i, x).drop_last() =~= g.drop_last());
    }
}

proof fn lemma_grouped_size(s: Seq<(Option<Seq<char>>, Data)>)
    ensures
        group_sizes(grouped(s)) == s.len(),
    decreases s.len(),
{
    if s.len() > 0 {
        let g = grouped(s.drop_last());
        lemma_grouped_size(s.drop_last());
        let (key, d) = s.last();
        crate::parsing::lemma_first_key_bounds(group_keys(g), key, 0);
        let i = key_index(g, key);
        if i < g.len() {
            lemma_sizes_update(g, i, (key, g[i].1.push(d), merged(g[i].2, d.info.stats)));
        } else {
            assert(g.push((key, seq![d], d.info.stats)).drop_last() =~= g);
        }
    }
}

/// Correlation keeps exactly the runners whose block holds tests: the
/// groups hold as many runners as there are blocks with a non-zero total.
pub proof fn lemma_surviving_runners(p: Seq<(TestRunner, TestInfo)>)
    ensures
        group_sizes(correlate(p)) == nonempty_blocks(p, p.len() as int),
{
    lemma_labeled_len(p, p.len() as int);
    lemma_grouped_size(labeled(p, p.len() as int));
}

/// The number of the blocks `bs[..j]` that list at least one outcome line.
pub open spec fn blocks_with_tests(bs: Seq<Seq<Seq<char>>>, j: int) -> nat
    decreases j,
{
    if j <= 0 || j > bs.len() {
        0
    } else if outcomes(bs[j - 1]).len() > 0 {
        blocks_with_tests(bs, j - 1) + 1
    } else {
        blocks_with_tests(bs, j - 1)
    }
}

proof fn lemma_no_failure_from(ls: Seq<Seq<char>>, hs: Seq<int>, k: int, j: int)
    requires
        0 <= k <= j < hs.len(),
        first_failure(ls, hs, k) is None,
    ensures
        block_failure(block_lines(ls, hs, j), j) is None,
    decreases j - k,
{
    if k < j {
        lemma_no_failure_from(ls, hs, k + 1, j);
    }
}

proof fn lemma_nonempty_agree(p: Seq<(TestRunner, TestInfo)>, bs: Seq<Seq<Seq<char>>>, j: int)
    requires
        0 <= j <= p.len(),
        p.len() == bs.len(),
        forall|k: int| 0 <= k < p.len() ==> ((#[trigger] p[k]).1.stats.total > 0 <==> outcomes(bs[k]).len() > 0),
    ensures
        nonempty_blocks(p, j) == blocks_with_tests(bs, j),
    decreases j,
{
    if j > 0 {
        lemma_nonempty_agree(p, bs, j - 1);
    }
}

/// For two well-formed streams, the runners that survive correlation are
/// as many as the blocks of the result stream that list an outcome line.
pub proof fn lemma_streams_surviving_runners(
    err: Seq<char>,
    out: Seq<char>,
    p: Seq<(TestRunner, TestInfo)>,
)
    requires
        streams_ok(err, out),
        pairs_match(err, out, p),
    ensures
        group_sizes(correlate(p)) == blocks_with_tests(stdout_blocks(out), p.len() as int),
{
    let ls = crate::text::lines(out);
    let hs = headers(ls);
    let bs = stdout_blocks(out);
    assert(p.len() == bs.len());
    assert forall|k: int| 0 <= k < p.len() implies describes(#[trigger] p[k].1, bs[k]) by {
        let _r = p[k].0;
    }
    lemma_headers(ls, ls.len() as int);
    assert forall|k: int| 0 <= k < p.len() implies ((#[trigger] p[k]).1.stats.total > 0
        <==> outcomes(bs[k]).len() > 0) by {
        assert(bs[k] == block_lines(ls, hs, k));
        lemma_no_failure_from(ls, hs, 0, k);
        let b = bs[k];
        assert(b[0] == ls[hs[k]]);
        let n = header_count(b[0])->Some_0;
        assert(n <= u32::MAX);
    }
    lemma_surviving_runners(p);
    lemma_nonempty_agree(p, bs, p.len() as int);
}

/// Merging statistics is commutative and associative, has the statistics
/// of nothing as identity, and holds `ok` where both sides hold it.
pub proof fn lemma_merge_laws(a: Stats, b: Stats, c: Stats)
    ensures
        merged(a, b) == merged(b, a),
        merged(merged(a, b), c) == merged(a, merged(b, c)),
        merged(zero_stats(), a) == a,
        merged(a, b).ok == (a.ok && b.ok),
{
}

/// A merge of many statistics is `ok` exactly where each of them is.
pub proof fn lemma_merge_all_ok(s: Seq<Stats>)
    ensures
        merge_all(s).ok <==> forall|i: int| 0 <= i < s.len() ==> (#[trigger] s[i]).ok,
    decreases s.len(),
{
    if s.len() > 0 {
        lemma_merge_all_ok(s.drop_last());
        assert(forall|i: int| 0 <= i < s.len() - 1 ==> s.drop_last()[i] == s[i]);
    }
}

proof fn lemma_merge_all_remove(t: Seq<Stats>, i: int)
    requires
        0 <= i < t.len(),
    ensures
        merge_all(t) == merged(merge_all(t.remove(i)), t[i]),
    decreases t.len(),
{
    if i == t.len() - 1 {
        assert(t.remove(i) =~= t.drop_last());
    } else {
        let d = t.drop_last();
        lemma_merge_all_remove(d, i);
        assert(t.remove(i) =~= d.remove(i).push(t.last()));
        assert(t.remove(i).drop_last() =~= d.remove(i));
        lemma_merge_laws(merge_all(d.remove(i)), t[i], t.last());
        lemma_merge_laws(merge_all(d.remove(i)), t.last(), t[i]);
        lemma_merge_laws(t[i], t.last(), zero_stats());
    }
}

/// Merging statistics in any order gives the same result: two sequences
/// that hold the same statistics, as many times each, merge alike.
pub proof fn lemma_merge_any_order(s: Seq<Stats>, t: Seq<Stats>)
    requires
        s.to_multiset() == t.to_multiset(),
    ensures
        merge_all(s) == merge_all(t),
    decreases s.len(),
{
    broadcast use vstd::seq_lib::group_to_multiset_ensures;

    vstd::seq_lib::to_multiset_len(s);
    vstd::seq_lib::to_multiset_len(t);
    if s.len() == 0 {
        assert(t.len() == 0);
        assert(t =~= s);
    } else {
        let x = s.last();
        assert(s.contains(x)) by {
            assert(s[s.len() - 1] == x);
        }
        vstd::seq_lib::to_multiset_contains(s, x);
        vstd::seq_lib::to_multiset_contains(t, x);
        let i = choose|i: int| 0 <= i < t.len() && t[i] == x;
        vstd::seq_lib::to_multiset_remove(t, i);
        assert(s.remove(s.len() - 1) =~= s.drop_last());
        vstd::seq_lib::to_multiset_remove(s, s.len() - 1);
        lemma_merge_any_order(s.drop_last(), t.remove(i));
        lemma_merge_all_remove(t, i);
    }
}

/// Blocks whose outcome lines are the same up to order give the same
/// sorted outcome lines, and so the same namespace tree.
pub proof fn lemma_sort_determinism(
    x: TestInfo,
    y: TestInfo,
    b1: Seq<Seq<char>>,
    b2: Seq<Seq<char>>,
)
    requires
        describes(x, b1),
        describes(y, b2),
        outcomes(b1).to_multiset() == outcomes(b2).to_multiset(),
    ensures
        string_views(x.parsed.tree@) == string_views(y.parsed.tree@),
        built(string_views(x.parsed.tree@)) == built(string_views(y.parsed.tree@)),
{
    lemma_sorted_unique(string_views(x.parsed.tree@), string_views(y.parsed.tree@));
}

/// Classifying one announcement twice gives the same runner.
pub proof fn lemma_classification_idempotent(a: Announced, r1: TestRunner, r2: TestRunner)
    requires
        runner_is(r1, classify(a)),
        runner_is(r2, classify(a)),
    ensures
        r1.ty == r2.ty,
        r1.src.src_path@ == r2.src.src_path@,
        r1.src.bin_name@ == r2.src.bin_name@,
{
}

/// Two groups built with `new` and `push` from the same runners' statistics,
/// in any order, have the same statistics; they are `ok` exactly where
/// each runner is.
pub proof fn lemma_groups_any_order(p: PkgTest, q: PkgTest)
    requires
        p.well_formed(),
        q.well_formed(),
        runner_stats(p.inner@).to_multiset() == runner_stats(q.inner@).to_multiset(),
    ensures
        p.stats == q.stats,
        p.stats.ok <==> forall|i: int|
            0 <= i < p.inner@.len() ==> (#[trigger] p.inner@[i]).info.stats.ok,
{
    lemma_merge_any_order(runner_stats(p.inner@), runner_stats(q.inner@));
    lemma_merge_all_ok(runner_stats(p.inner@));
    assert forall|i: int| 0 <= i < p.inner@.len() implies runner_stats(p.inner@)[i]
        == (#[trigger] p.inner@[i]).info.stats by {}
}

/// Each group that correlation forms holds its runners' statistics, merged.
pub proof fn lemma_grouped_stats(s: Seq<(Option<Seq<char>>, Data)>)
    ensures
        forall|i: int|
            0 <= i < grouped(s).len() ==> (#[trigger] grouped(s)[i]).2 == merge_all(
                runner_stats(grouped(s)[i].1),
            ),
    decreases s.len(),
{
    if s.len() > 0 {
        let g = grouped(s.drop_last());
        lemma_grouped_stats(s.drop_last());
        let (key, d) = s.last();
        crate::parsing::lemma_first_key_bounds(group_keys(g), key, 0);
        let i = key_index(g, key);
        let r = grouped(s);
        if i < g.len() {
            let rs = runner_stats(g[i].1.push(d));
            assert(rs.drop_last() =~= runner_stats(g[i].1));
            assert forall|j: int| 0 <= j < r.len() implies (#[trigger] r[j]).2 == merge_all(
                runner_stats(r[j].1),
            ) by {
                if j != i {
                    assert(r[j] == g[j]);
                }
            }
        } else {
            let rs = runner_stats(seq![d]);
            assert(rs =~= seq![d.info.stats]);
            assert(rs.drop_last() =~= Seq::<Stats>::empty());
            assert(merge_all(Seq::<Stats>::empty()) == zero_stats());
            assert forall|j: int| 0 <= j < r.len() implies (#[trigger] r[j]).2 == merge_all(
                runner_stats(r[j].1),
            ) by {
                if j < g.len() {
                    assert(r[j] == g[j]);
                }
            }
        }
    }
}

/// Where both streams parse but the diagnostic stream announces another
/// number of runners than the result stream holds blocks, the parse fails
/// (so nothing is drawn), and with `StructuralMismatch` alone.
pub proof fn lemma_count_mismatch_fails(err: Seq<char>, out: Seq<char>)
    requires
        first_bad(announcements(err), 0) == announcements(err).len(),
        (stdout_failure(out) is None),
        announcements(err).len() != stdout_blocks(out).len(),
    ensures
        !streams_ok(err, out),
        forall|e: Error|
            #[trigger] streams_error(err, out, e) ==> e == (Error::StructuralMismatch {
                runners: announcements(err).len() as usize,
                blocks: stdout_blocks(out).len() as usize,
            }),
{
}

/// Two result streams whose blocks hold the same outcome lines, each block
/// up to order, parse to the same sorted outcome lines, block by block.
pub proof fn lemma_stream_sort_determinism(
    o1: Seq<char>,
    o2: Seq<char>,
    v1: Seq<TestInfo>,
    v2: Seq<TestInfo>,
)
    requires
        v1.len() == stdout_blocks(o1).len(),
        v2.len() == stdout_blocks(o2).len(),
        v1.len() == v2.len(),
        forall|k: int| 0 <= k < v1.len() ==> describes(#[trigger] v1[k], stdout_blocks(o1)[k]),
        forall|k: int| 0 <= k < v2.len() ==> describes(#[trigger] v2[k], stdout_blocks(o2)[k]),
        forall|k: int|
            0 <= k < v1.len() ==> #[trigger] outcomes(stdout_blocks(o1)[k]).to_multiset()
                == outcomes(stdout_blocks(o2)[k]).to_multiset(),
    ensures
        forall|k: int|
            0 <= k < v1.len() ==> string_views((#[trigger] v1[k]).parsed.tree@) == string_views(
                v2[k].parsed.tree@,
            ),
{
    assert forall|k: int| 0 <= k < v1.len() implies string_views(
        (#[trigger] v1[k]).parsed.tree@,
    ) == string_views(v2[k].parsed.tree@) by {
        assert(describes(v2[k], stdout_blocks(o2)[k]));
        assert(outcomes(stdout_blocks(o1)[k]).to_multiset() == outcomes(
            stdout_blocks(o2)[k],
        ).to_multiset());
        lemma_sort_determinism(v1[k], v2[k], stdout_blocks(o1)[k], stdout_blocks(o2)[k]);
    }
}

/// Outcome lines whose test paths stand apart (no path is another, nor a
/// beginning of another) give the same namespace tree, and so the same
/// drawing under a root, in any order.
pub proof fn lemma_tree_any_order(root: Seq<char>, s: Seq<Seq<char>>, t: Seq<Seq<char>>)
    requires
        s.to_multiset() == t.to_multiset(),
        paths_apart(s),
    ensures
        built(s) == built(t),
        entry_rows(root, NodeView::Branch(built(s))) == entry_rows(root, NodeView::Branch(built(t))),
{
    lemma_built_any_order(s, t);
}

} // verus!
