//! The whole pipeline: from the two streams of a test run to one drawn tree
//! and the run's grand total.

use crate::grammar::is_outcome;
use crate::parsing::{
    correlate, entry_view, merged, pairs_match, parse_cargo_test, pkg_entries, pkgs_get_index,
    pkgs_len, streams_error, streams_ok, string_views, zero_stats, Data, Error, GroupView,
    Stats, TestInfo, TestRunner, TestRunners,
};
use crate::prettify::{
    built, drawn, entry_rows, lemma_drawn_concat, lemma_drawn_shift, make_pretty, str_views,
    styled_shift, tree_new, tree_push, tree_rows, NodeView, Styled, TestTree, ITEM_INDENT,
};
use crate::style::{bold, BOLD};
use crate::summary::{is_root_title, is_subroot_title};
use crate::text::string_of;
use vstd::prelude::*;

verus! {

/// The text at the root of the drawn tree.
pub open spec fn BANNER() -> Seq<char> {
    seq![
        'G', 'e', 'n', 'e', 'r', 'a', 't', 'e', 'd', ' ', 'b', 'y', ' ', 'c', 'a', 'r', 'g', 'o',
        '-', 'p', 'r', 'e', 't', 't', 'y', '-', 't', 'e', 's', 't'
    ]
}

/// The label of a group whose package is not known.
pub open spec fn NO_PACKAGE() -> Seq<char> {
    seq!['t', 'e', 's', 't', 's']
}

/// The statistics of all the groups merged, in order.
pub open spec fn grand_total(g: Seq<GroupView>) -> Stats
    decreases g.len(),
{
    if g.len() == 0 {
        zero_stats()
    } else {
        merged(grand_total(g.drop_last()), g.last().2)
    }
}

/// The rows of runner `d` titled `title`: its namespace tree under the
/// title, or nothing where one of its lines is no outcome line.
pub open spec fn runner_want(d: Data, title: Seq<char>) -> Seq<Styled> {
    let ls = string_views(d.info.parsed.tree@);
    if forall|k: int| 0 <= k < ls.len() ==> is_outcome(#[trigger] ls[k]) {
        entry_rows(title, NodeView::Branch(built(ls)))
    } else {
        seq![]
    }
}

/// The rows of the first `ts.len()` runners of `ds`, titled `ts`.
pub open spec fn runners_want(ds: Seq<Data>, ts: Seq<Seq<char>>) -> Seq<Styled>
    decreases ts.len(),
{
    if ts.len() == 0 {
        seq![]
    } else {
        runners_want(ds, ts.drop_last()) + runner_want(ds[ts.len() - 1], ts.last())
    }
}

/// The rows of the first `gt.len()` groups of `g`, titled `gt`, their
/// runners titled `rt`.
pub open spec fn groups_want(
    g: Seq<GroupView>,
    gt: Seq<Seq<char>>,
    rt: Seq<Seq<Seq<char>>>,
) -> Seq<Styled>
    decreases gt.len(),
{
    if gt.len() == 0 {
        seq![]
    } else {
        groups_want(g, gt.drop_last(), rt.drop_last()) + seq![
            (0nat, gt.last(), ITEM_INDENT(), Seq::<char>::empty()),
        ] + styled_shift(runners_want(g[gt.len() - 1].1, rt[gt.len() - 1]))
    }
}

/// The label that titles group `gv`.
pub open spec fn group_label(gv: GroupView) -> Seq<char> {
    match gv.0 {
        Some(name) => name,
        None => NO_PACKAGE(),
    }
}

/// `gt` and `rt` title the groups `g` and their runners.
pub open spec fn titles_ok(g: Seq<GroupView>, gt: Seq<Seq<char>>, rt: Seq<Seq<Seq<char>>>) -> bool {
    &&& gt.len() == g.len()
    &&& rt.len() == g.len()
    &&& forall|i: int|
        0 <= i < g.len() ==> is_root_title(g[i].2, group_label(g[i]), #[trigger] gt[i])
            && rt[i].len() == g[i].1.len()
    &&& forall|i: int, j: int|
        0 <= i < g.len() && 0 <= j < g[i].1.len() ==> is_subroot_title(
            g[i].1[j].info.stats,
            g[i].1[j].runner.src.src_path@,
            #[trigger] rt[i][j],
        )
}

/// The rows of the whole drawing: the banner in bold, then the groups.
pub open spec fn tree_want(g: Seq<GroupView>, gt: Seq<Seq<char>>, rt: Seq<Seq<Seq<char>>>) -> Seq<
    Styled,
> {
    seq![(0nat, BANNER(), ITEM_INDENT(), BOLD())] + styled_shift(groups_want(g, gt, rt))
}

/// Draws the package groups under a banner: each group titled with its
/// label and statistics, each runner under it titled likewise, with its
/// namespace tree. Also merges the groups' statistics into the grand total.
pub fn render_runners(runners: &TestRunners) -> (r: (TestTree, Stats))
    ensures
        r.1 == grand_total(runners@),
        exists|gt: Seq<Seq<char>>, rt: Seq<Seq<Seq<char>>>|
            titles_ok(runners@, gt, rt) && drawn(tree_rows(r.0), #[trigger] tree_want(runners@, gt, rt)),
{
    let banner_chars: Vec<char> = vec![
        'G', 'e', 'n', 'e', 'r', 'a', 't', 'e', 'd', ' ', 'b', 'y', ' ', 'c', 'a', 'r', 'g', 'o',
        '-', 'p', 'r', 'e', 't', 't', 'y', '-', 't', 'e', 's', 't'
    ];
    assert(banner_chars@ =~= BANNER());
    let banner = bold(string_of(&banner_chars).as_str());
    let mut tree = tree_new(banner);
    let ghost head = seq![(0nat, BANNER(), ITEM_INDENT(), BOLD())];
    let ghost mut gt: Seq<Seq<char>> = seq![];
    let ghost mut rt: Seq<Seq<Seq<char>>> = seq![];
    let mut stats = Stats::default();
    let n = pkgs_len(&runners.pkgs);
    let mut i: usize = 0;
    assert(runners@.subrange(0, 0) =~= seq![]);
    assert(drawn(tree_rows(tree), head + styled_shift(groups_want(runners@, gt, rt)))) by {
        assert(head + styled_shift(groups_want(runners@, gt, rt)) =~= head);
    }
    while i < n
        invariant
            i <= n,
            n == runners@.len(),
            gt.len() == i,
            rt.len() == i,
            stats == grand_total(runners@.subrange(0, i as int)),
            head == seq![(0nat, BANNER(), ITEM_INDENT(), BOLD())],
            forall|a: int| 0 <= a < i ==> is_root_title(runners@[a].2, group_label(runners@[a]), #[trigger] gt[a])
                && rt[a].len() == runners@[a].1.len(),
            forall|a: int, b: int|
                0 <= a < i && 0 <= b < runners@[a].1.len() ==> is_subroot_title(
                    runners@[a].1[b].info.stats,
                    runners@[a].1[b].runner.src.src_path@,
                    #[trigger] rt[a][b],
                ),
            drawn(tree_rows(tree), head + styled_shift(groups_want(runners@, gt, rt))),
        decreases n - i,
    {
        let (pkg, data) = pkgs_get_index(&runners.pkgs, i).unwrap();
        let ghost gv = runners@[i as int];
        assert(gv == entry_view(pkg_entries(runners.pkgs)[i as int]));
        assert(gv.1 == data.inner@ && gv.2 == data.stats);
        let ghost next = runners@.subrange(0, i + 1);
        assert(next.drop_last() =~= runners@.subrange(0, i as int));
        stats.absorb(&data.stats);
        let title = match pkg {
            Some(p) => data.stats.root_string(p.as_str()),
            None => {
                let t = vec!['t', 'e', 's', 't', 's'];
                assert(t@ =~= NO_PACKAGE());
                data.stats.root_string(string_of(&t).as_str())
            },
        };
        assert(is_root_title(gv.2, group_label(gv), title@));
        let mut group = tree_new(title);
        let ghost ghead = seq![(0nat, title@, ITEM_INDENT(), Seq::<char>::empty())];
        let ghost mut ts: Seq<Seq<char>> = seq![];
        assert(drawn(tree_rows(group), ghead + styled_shift(runners_want(gv.1, ts)))) by {
            assert(ghead + styled_shift(runners_want(gv.1, ts)) =~= ghead);
        }
        let mut k: usize = 0;
        while k < data.inner.len()
            invariant
                k <= data.inner.len(),
                gv.1 == data.inner@,
                ts.len() == k,
                ghead == seq![(0nat, title@, ITEM_INDENT(), Seq::<char>::empty())],
                forall|b: int| 0 <= b < k ==> is_subroot_title(
                    gv.1[b].info.stats,
                    gv.1[b].runner.src.src_path@,
                    #[trigger] ts[b],
                ),
                drawn(tree_rows(group), ghead + styled_shift(runners_want(gv.1, ts))),
            decreases data.inner.len() - k,
        {
            let d = &data.inner[k];
            let sub_title = d.info.stats.subroot_string(d.runner.src.src_path.as_str());
            let mut lines: Vec<&str> = Vec::new();
            let mut j: usize = 0;
            while j < d.info.parsed.tree.len()
                invariant
                    j <= d.info.parsed.tree.len(),
                    str_views(lines@) == string_views(d.info.parsed.tree@).subrange(0, j as int),
                decreases d.info.parsed.tree.len() - j,
            {
                let ghost before = str_views(lines@);
                lines.push(d.info.parsed.tree[j].as_str());
                assert(str_views(lines@) =~= before.push(d.info.parsed.tree@[j as int]@));
                j += 1;
                assert(string_views(d.info.parsed.tree@).subrange(0, j as int) =~= string_views(
                    d.info.parsed.tree@,
                ).subrange(0, j - 1).push(d.info.parsed.tree@[j - 1]@));
            }
            assert(string_views(d.info.parsed.tree@).subrange(0, j as int) =~= string_views(
                d.info.parsed.tree@,
            ));
            let ghost before = tree_rows(group);
            let ghost ts2 = ts.push(sub_title@);
            assert(ts2.drop_last() =~= ts);
            let ghost want_d = runner_want(*d, sub_title@);
            match make_pretty(sub_title.as_str(), &lines) {
                Some(t) => {
                    tree_push(&mut group, t);
                    proof {
                        lemma_drawn_shift(tree_rows(t), want_d);
                        lemma_drawn_concat(
                            before,
                            ghead + styled_shift(runners_want(gv.1, ts)),
                            crate::prettify::shift(tree_rows(t)),
                            styled_shift(want_d),
                        );
                    }
                },
                None => {
                    proof {
                        let ls = string_views(d.info.parsed.tree@);
                        if forall|m: int| 0 <= m < ls.len() ==> is_outcome(#[trigger] ls[m]) {
                            assert forall|m: int| 0 <= m < lines.len() implies is_outcome(
                                #[trigger] lines@[m]@,
                            ) by {
                                assert(lines@[m]@ == str_views(lines@)[m]);
                            }
                        }
                        assert(want_d =~= seq![]);
                    }
                },
            }
            proof {
                assert(styled_shift(runners_want(gv.1, ts2)) =~= styled_shift(runners_want(gv.1, ts))
                    + styled_shift(want_d));
                assert(ghead + styled_shift(runners_want(gv.1, ts2)) =~= ghead + styled_shift(
                    runners_want(gv.1, ts),
                ) + styled_shift(want_d));
                if tree_rows(group) == before {
                    assert(tree_rows(group) =~= before + Seq::<(nat, Seq<char>, Seq<char>)>::empty());
                }
                ts = ts2;
            }
            k += 1;
        }
        let ghost before = tree_rows(tree);
        tree_push(&mut tree, group);
        proof {
            let gw = ghead + styled_shift(runners_want(gv.1, ts));
            lemma_drawn_shift(tree_rows(group), gw);
            lemma_drawn_concat(
                before,
                head + styled_shift(groups_want(runners@, gt, rt)),
                crate::prettify::shift(tree_rows(group)),
                styled_shift(gw),
            );
            let gt2 = gt.push(title@);
            let rt2 = rt.push(ts);
            assert(gt2.drop_last() =~= gt);
            assert(rt2.drop_last() =~= rt);
            assert(groups_want(runners@, gt2, rt2) == groups_want(runners@, gt, rt) + gw);
            assert(head + styled_shift(groups_want(runners@, gt2, rt2)) =~= head + styled_shift(
                groups_want(runners@, gt, rt),
            ) + styled_shift(gw));
            gt = gt2;
            rt = rt2;
        }
        i += 1;
    }
    assert(runners@.subrange(0, i as int) =~= runners@);
    assert(titles_ok(runners@, gt, rt));
    assert(drawn(tree_rows(tree), tree_want(runners@, gt, rt)));
    (tree, stats)
}

/// Parses the two streams and draws their tree; see [`parse_cargo_test`] and
/// [`render_runners`].
pub fn parse_cargo_test_output(stderr: &str, stdout: &str) -> (r: Result<(TestTree, Stats), Error>)
    ensures
        r is Ok <==> streams_ok(stderr@, stdout@),
        r matches Err(e) ==> streams_error(stderr@, stdout@, e),
        r matches Ok(v) ==> exists|p: Seq<(TestRunner, TestInfo)>|
            #![trigger correlate(p)]
            pairs_match(stderr@, stdout@, p) && v.1 == grand_total(correlate(p)) && exists|
                gt: Seq<Seq<char>>,
                rt: Seq<Seq<Seq<char>>>,
            |
                titles_ok(correlate(p), gt, rt) && drawn(
                    tree_rows(v.0),
                    #[trigger] tree_want(correlate(p), gt, rt),
                ),
{
    match parse_cargo_test(stderr, stdout) {
        Ok(runners) => {
            let v = render_runners(&runners);
            Ok(v)
        },
        Err(e) => Err(e),
    }
}

} // verus!
