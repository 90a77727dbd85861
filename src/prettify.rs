//! The namespace tree of one block's outcome lines, and its rendering.

use crate::grammar::has_at;
use crate::order::{lt_chars, seq_lt};
use crate::grammar::{outcome_end_exec, outcome_of};
use crate::style::{bright_black, red, shaded, BRIGHT_BLACK, RED};
use crate::text::{chars_of, copy_range, string_of, views};
use vstd::prelude::*;

verus! {

/// A spec value of the namespace tree: branches map path segments (sorted)
/// to subtrees, leaves hold a raw status text.
pub enum NodeView {
    Branch(Seq<(Seq<char>, NodeView)>),
    Leaf(Seq<char>),
}

/// One entry of a branch.
pub struct Child {
    pub key: Vec<char>,
    pub node: Node,
}

/// The namespace tree of one block.
pub enum Node {
    Path(Vec<Child>),
    Status(Vec<char>),
}

pub open spec fn node_view(n: Node) -> NodeView
    decreases n, 0nat,
{
    match n {
        Node::Status(s) => NodeView::Leaf(s@),
        Node::Path(ch) => NodeView::Branch(children_view(ch@)),
    }
}

pub open spec fn children_view(ch: Seq<Child>) -> Seq<(Seq<char>, NodeView)>
    decreases ch, 1nat,
{
    if ch.len() == 0 {
        seq![]
    } else {
        children_view(ch.drop_last()).push((ch.last().key@, node_view(ch.last().node)))
    }
}

proof fn lemma_children_view(ch: Seq<Child>)
    ensures
        children_view(ch).len() == ch.len(),
        forall|k: int|
            0 <= k < ch.len() ==> #[trigger] children_view(ch)[k] == (ch[k].key@, node_view(ch[k].node)),
    decreases ch.len(),
{
    if ch.len() > 0 {
        lemma_children_view(ch.drop_last());
    }
}

/// The first index of the sorted entries `ch[i..]` whose key is not below
/// `key`: where `key` stands or belongs.
pub open spec fn slot(ch: Seq<(Seq<char>, NodeView)>, key: Seq<char>, i: int) -> int
    decreases ch.len() - i,
{
    if i < 0 || i >= ch.len() {
        ch.len() as int
    } else if seq_lt(ch[i].0, key) {
        slot(ch, key, i + 1)
    } else {
        i
    }
}

/// The branch entries `ch` once the path `segs` is inserted with `status`:
/// missing segments are created (the last as a leaf), existing branches
/// are descended into, and an existing leaf on the way ends the insertion.
pub open spec fn insert_path(
    ch: Seq<(Seq<char>, NodeView)>,
    segs: Seq<Seq<char>>,
    status: Seq<char>,
) -> Seq<(Seq<char>, NodeView)>
    decreases segs.len(),
{
    if segs.len() == 0 {
        ch
    } else {
        let key = segs[0];
        let i = slot(ch, key, 0);
        if i < ch.len() && ch[i].0 == key {
            match ch[i].1 {
                NodeView::Branch(sub) => ch.update(
                    i,
                    (key, NodeView::Branch(insert_path(sub, segs.drop_first(), status))),
                ),
                NodeView::Leaf(_) => ch,
            }
        } else if segs.len() == 1 {
            ch.insert(i, (key, NodeView::Leaf(status)))
        } else {
            ch.insert(i, (key, NodeView::Branch(insert_path(seq![], segs.drop_first(), status))))
        }
    }
}

proof fn lemma_slot(ch: Seq<(Seq<char>, NodeView)>, key: Seq<char>, i: int)
    requires
        0 <= i <= ch.len(),
    ensures
        i <= slot(ch, key, i) <= ch.len(),
    decreases ch.len() - i,
{
    if i < ch.len() && seq_lt(ch[i].0, key) {
        lemma_slot(ch, key, i + 1);
    }
}

/// The keys of the entries `ch` strictly increase.
pub open spec fn keys_sorted(ch: Seq<(Seq<char>, NodeView)>) -> bool {
    forall|i: int, j: int| 0 <= i < j < ch.len() ==> seq_lt(ch[i].0, ch[j].0)
}

/// The keys of every branch of the tree strictly increase: each key is
/// met once, and entries stand in key order.
pub open spec fn well_formed(ch: Seq<(Seq<char>, NodeView)>) -> bool
    decreases ch,
{
    &&& keys_sorted(ch)
    &&& forall|i: int|
        0 <= i < ch.len() ==> match #[trigger] ch[i].1 {
            NodeView::Branch(sub) => well_formed(sub),
            NodeView::Leaf(_) => true,
        }
}

proof fn lemma_slot_order(ch: Seq<(Seq<char>, NodeView)>, key: Seq<char>, i: int)
    requires
        0 <= i <= ch.len(),
        forall|j: int| 0 <= j < i ==> seq_lt(#[trigger] ch[j].0, key),
    ensures
        forall|j: int| 0 <= j < slot(ch, key, i) ==> seq_lt(#[trigger] ch[j].0, key),
        slot(ch, key, i) < ch.len() ==> !seq_lt(ch[slot(ch, key, i)].0, key),
        i <= slot(ch, key, i) <= ch.len(),
    decreases ch.len() - i,
{
    if i < ch.len() && seq_lt(ch[i].0, key) {
        lemma_slot_order(ch, key, i + 1);
    }
}

/// Inserting a path keeps a tree well formed.
pub proof fn lemma_insert_well_formed(
    ch: Seq<(Seq<char>, NodeView)>,
    segs: Seq<Seq<char>>,
    status: Seq<char>,
)
    requires
        well_formed(ch),
    ensures
        well_formed(insert_path(ch, segs, status)),
    decreases segs.len(),
{
    if segs.len() > 0 {
        let key = segs[0];
        lemma_slot_order(ch, key, 0);
        let i = slot(ch, key, 0);
        let r = insert_path(ch, segs, status);
        if i < ch.len() && ch[i].0 == key {
            if let NodeView::Branch(sub) = ch[i].1 {
                assert(well_formed(sub));
                lemma_insert_well_formed(sub, segs.drop_first(), status);
                assert forall|a: int, b: int| 0 <= a < b < r.len() implies seq_lt(r[a].0, r[b].0) by {
                    assert(r[a].0 == ch[a].0 && r[b].0 == ch[b].0);
                }
                assert forall|a: int| 0 <= a < r.len() implies match #[trigger] r[a].1 {
                    NodeView::Branch(sub) => well_formed(sub),
                    NodeView::Leaf(_) => true,
                } by {
                    if a != i {
                        assert(r[a] == ch[a]);
                    }
                }
            }
        } else {
            let fresh = if segs.len() == 1 {
                NodeView::Leaf(status)
            } else {
                NodeView::Branch(insert_path(seq![], segs.drop_first(), status))
            };
            if segs.len() > 1 {
                assert(well_formed(Seq::<(Seq<char>, NodeView)>::empty()));
                lemma_insert_well_formed(seq![], segs.drop_first(), status);
            }
            assert(r == ch.insert(i, (key, fresh)));
            if i < ch.len() {
                crate::order::lemma_lt_total(ch[i].0, key);
            }
            assert forall|j: int| i <= j < ch.len() implies seq_lt(key, #[trigger] ch[j].0) by {
                if j > i {
                    crate::order::lemma_lt_trans(key, ch[i].0, ch[j].0);
                }
            }
            assert forall|a: int, b: int| 0 <= a < b < r.len() implies seq_lt(r[a].0, r[b].0) by {
                if b < i {
                    assert(r[a] == ch[a] && r[b] == ch[b]);
                } else if b == i {
                    assert(r[a] == ch[a]);
                } else if a == i {
                    assert(r[b] == ch[b - 1]);
                } else if a < i {
                    assert(r[a] == ch[a] && r[b] == ch[b - 1]);
                    crate::order::lemma_lt_trans(ch[a].0, key, ch[b - 1].0);
                } else {
                    assert(r[a] == ch[a - 1] && r[b] == ch[b - 1]);
                }
            }
            assert forall|a: int| 0 <= a < r.len() implies match #[trigger] r[a].1 {
                NodeView::Branch(sub) => well_formed(sub),
                NodeView::Leaf(_) => true,
            } by {
                if a < i {
                    assert(r[a] == ch[a]);
                } else if a > i {
                    assert(r[a] == ch[a - 1]);
                }
            }
        }
    }
}

/// The namespace tree of any outcome lines is well formed.
pub proof fn lemma_built_well_formed(ls: Seq<Seq<char>>)
    ensures
        well_formed(built(ls)),
    decreases ls.len(),
{
    if ls.len() == 0 {
        assert(well_formed(Seq::<(Seq<char>, NodeView)>::empty()));
    } else {
        lemma_built_well_formed(ls.drop_last());
        let parts = outcome_of(ls.last())->Some_0;
        lemma_insert_well_formed(built(ls.drop_last()), split_path(parts.0), parts.1);
    }
}

/// The subtree under `key` in the sorted entries `ch`, if any.
pub open spec fn find(ch: Seq<(Seq<char>, NodeView)>, key: Seq<char>) -> Option<NodeView> {
    let i = slot(ch, key, 0);
    if i < ch.len() && ch[i].0 == key {
        Some(ch[i].1)
    } else {
        None
    }
}

proof fn lemma_find_some(ch: Seq<(Seq<char>, NodeView)>, key: Seq<char>, j: int)
    requires
        keys_sorted(ch),
        0 <= j < ch.len(),
        ch[j].0 == key,
    ensures
        slot(ch, key, 0) == j,
        find(ch, key) == Some(ch[j].1),
{
    lemma_slot_order(ch, key, 0);
    let i = slot(ch, key, 0);
    crate::order::lemma_lt_asym(key, key);
    if j < i {
        assert(seq_lt(ch[j].0, key));
    } else if j > i {
        assert(seq_lt(ch[i].0, ch[j].0));
    }
}

proof fn lemma_find_none(ch: Seq<(Seq<char>, NodeView)>, key: Seq<char>)
    requires
        forall|j: int| 0 <= j < ch.len() ==> (#[trigger] ch[j]).0 != key,
    ensures
        find(ch, key) is None,
{
    lemma_slot_order(ch, key, 0);
}

proof fn lemma_sorted_tail(x: Seq<(Seq<char>, NodeView)>)
    requires
        keys_sorted(x),
        x.len() > 0,
    ensures
        keys_sorted(x.drop_first()),
{
    let t = x.drop_first();
    assert forall|i: int, j: int| 0 <= i < j < t.len() implies seq_lt(t[i].0, t[j].0) by {
        assert(t[i] == x[i + 1] && t[j] == x[j + 1]);
    }
}

proof fn lemma_find_tail(x: Seq<(Seq<char>, NodeView)>, k: Seq<char>)
    requires
        keys_sorted(x),
        x.len() > 0,
    ensures
        k != x[0].0 ==> find(x.drop_first(), k) == find(x, k),
        k == x[0].0 ==> find(x.drop_first(), k) is None,
{
    let t = x.drop_first();
    lemma_sorted_tail(x);
    if exists|j: int| 0 <= j < t.len() && t[j].0 == k {
        let j = choose|j: int| 0 <= j < t.len() && t[j].0 == k;
        assert(t[j] == x[j + 1]);
        lemma_find_some(t, k, j);
        lemma_find_some(x, k, j + 1);
        if k == x[0].0 {
            assert(seq_lt(x[0].0, x[j + 1].0));
            crate::order::lemma_lt_asym(k, k);
        }
    } else {
        assert forall|j: int| 0 <= j < t.len() implies (#[trigger] t[j]).0 != k by {}
        lemma_find_none(t, k);
        if k != x[0].0 {
            assert forall|j: int| 0 <= j < x.len() implies (#[trigger] x[j]).0 != k by {
                if j > 0 {
                    assert(t[j - 1] == x[j]);
                }
            }
            lemma_find_none(x, k);
        }
    }
}

/// Sorted entries with the same subtree under every key are equal.
proof fn lemma_find_ext(x: Seq<(Seq<char>, NodeView)>, y: Seq<(Seq<char>, NodeView)>)
    requires
        keys_sorted(x),
        keys_sorted(y),
        forall|k: Seq<char>| #[trigger] find(x, k) == find(y, k),
    ensures
        x == y,
    decreases x.len(),
{
    if x.len() == 0 {
        if y.len() > 0 {
            lemma_find_some(y, y[0].0, 0);
            assert(find(x, y[0].0) == find(y, y[0].0));
        }
        assert(x =~= y);
    } else {
        let k0 = x[0].0;
        lemma_find_some(x, k0, 0);
        assert(find(x, k0) == find(y, k0));
        lemma_slot_order(y, k0, 0);
        let iy = slot(y, k0, 0);
        assert(iy < y.len() && y[iy].0 == k0 && y[iy].1 == x[0].1);
        if iy > 0 {
            let k1 = y[0].0;
            assert(seq_lt(k1, k0));
            lemma_find_some(y, k1, 0);
            assert(find(x, k1) == find(y, k1));
            let m = slot(x, k1, 0);
            assert(m < x.len() && x[m].0 == k1);
            crate::order::lemma_lt_asym(k1, k0);
            if m > 0 {
                assert(seq_lt(x[0].0, x[m].0));
            }
            assert(false);
        }
        assert(iy == 0);
        assert(y[0].0 == x[0].0 && y[0].1 == x[0].1);
        assert(y[0] == x[0]);
        lemma_sorted_tail(x);
        lemma_sorted_tail(y);
        assert forall|k: Seq<char>| #[trigger] find(x.drop_first(), k) == find(y.drop_first(), k) by {
            lemma_find_tail(x, k);
            lemma_find_tail(y, k);
            assert(find(x, k) == find(y, k));
        }
        lemma_find_ext(x.drop_first(), y.drop_first());
        assert(x =~= seq![x[0]] + x.drop_first());
        assert(y =~= seq![y[0]] + y.drop_first());
    }
}

/// What sits under `segs[0]` once `segs` is inserted, given what sat there.
pub open spec fn after_insert(old: Option<NodeView>, segs: Seq<Seq<char>>, status: Seq<char>) -> Option<
    NodeView,
> {
    match old {
        Some(NodeView::Branch(sub)) => Some(
            NodeView::Branch(insert_path(sub, segs.drop_first(), status)),
        ),
        Some(NodeView::Leaf(x)) => Some(NodeView::Leaf(x)),
        None => Some(
            if segs.len() == 1 {
                NodeView::Leaf(status)
            } else {
                NodeView::Branch(insert_path(seq![], segs.drop_first(), status))
            },
        ),
    }
}

proof fn lemma_find_insert(ch: Seq<(Seq<char>, NodeView)>, segs: Seq<Seq<char>>, status: Seq<char>)
    requires
        well_formed(ch),
        segs.len() > 0,
    ensures
        find(insert_path(ch, segs, status), segs[0]) == after_insert(find(ch, segs[0]), segs, status),
        forall|k: Seq<char>|
            k != segs[0] ==> #[trigger] find(insert_path(ch, segs, status), k) == find(ch, k),
{
    let key = segs[0];
    let r = insert_path(ch, segs, status);
    lemma_insert_well_formed(ch, segs, status);
    lemma_slot_order(ch, key, 0);
    let i = slot(ch, key, 0);
    let found = i < ch.len() && ch[i].0 == key;
    assert(r.len() == if found { ch.len() } else { ch.len() + 1 });
    assert forall|j: int| 0 <= j < r.len() && j != i implies (#[trigger] r[j]) == if found || j < i {
        ch[j]
    } else {
        ch[j - 1]
    } by {}
    assert(r[i].0 == key);
    lemma_find_some(r, key, i);
    assert forall|k: Seq<char>| k != key implies #[trigger] find(r, k) == find(ch, k) by {
        if exists|j: int| 0 <= j < ch.len() && ch[j].0 == k {
            let j = choose|j: int| 0 <= j < ch.len() && ch[j].0 == k;
            lemma_find_some(ch, k, j);
            if found || j < i {
                assert(r[j] == ch[j]);
                lemma_find_some(r, k, j);
            } else {
                assert(r[j + 1] == ch[j]);
                lemma_find_some(r, k, j + 1);
            }
        } else {
            lemma_find_none(ch, k);
            assert forall|j: int| 0 <= j < r.len() implies (#[trigger] r[j]).0 != k by {
                if j != i {
                    if found || j < i {
                        assert(r[j] == ch[j]);
                    } else {
                        assert(r[j] == ch[j - 1]);
                    }
                }
            }
            lemma_find_none(r, k);
        }
    }
}

/// `a` is `b`, or a beginning of it.
pub open spec fn is_prefix(a: Seq<Seq<char>>, b: Seq<Seq<char>>) -> bool {
    a.len() <= b.len() && b.subrange(0, a.len() as int) == a
}

/// Neither path is the other, nor a beginning of it.
pub open spec fn apart(a: Seq<Seq<char>>, b: Seq<Seq<char>>) -> bool {
    !is_prefix(a, b) && !is_prefix(b, a)
}

/// Inserting two paths that stand apart gives the same tree in either order.
pub proof fn lemma_insert_commute(
    ch: Seq<(Seq<char>, NodeView)>,
    a: Seq<Seq<char>>,
    sa: Seq<char>,
    b: Seq<Seq<char>>,
    sb: Seq<char>,
)
    requires
        well_formed(ch),
        apart(a, b),
    ensures
        insert_path(insert_path(ch, a, sa), b, sb) == insert_path(insert_path(ch, b, sb), a, sa),
    decreases a.len() + b.len(),
{
    if a.len() == 0 {
        assert(b.subrange(0, 0) =~= a);
    }
    if b.len() == 0 {
        assert(a.subrange(0, 0) =~= b);
    }
    let ca = insert_path(ch, a, sa);
    let cb = insert_path(ch, b, sb);
    lemma_insert_well_formed(ch, a, sa);
    lemma_insert_well_formed(ch, b, sb);
    let l = insert_path(ca, b, sb);
    let r = insert_path(cb, a, sa);
    lemma_insert_well_formed(ca, b, sb);
    lemma_insert_well_formed(cb, a, sa);
    lemma_find_insert(ch, a, sa);
    lemma_find_insert(ch, b, sb);
    lemma_find_insert(ca, b, sb);
    lemma_find_insert(cb, a, sa);
    if a[0] == b[0] {
        if a.len() == 1 {
            assert(b.subrange(0, 1) =~= a);
        }
        if b.len() == 1 {
            assert(a.subrange(0, 1) =~= b);
        }
        let ta = a.drop_first();
        let tb = b.drop_first();
        if is_prefix(ta, tb) {
            assert forall|k: int| 0 <= k < a.len() implies b.subrange(0, a.len() as int)[k]
                == a[k] by {
                if k > 0 {
                    assert(tb.subrange(0, ta.len() as int)[k - 1] == ta[k - 1]);
                }
            }
            assert(b.subrange(0, a.len() as int) =~= a);
        }
        if is_prefix(tb, ta) {
            assert forall|k: int| 0 <= k < b.len() implies a.subrange(0, b.len() as int)[k]
                == b[k] by {
                if k > 0 {
                    assert(ta.subrange(0, tb.len() as int)[k - 1] == tb[k - 1]);
                }
            }
            assert(a.subrange(0, b.len() as int) =~= b);
        }
        match find(ch, a[0]) {
            Some(NodeView::Branch(sub)) => {
                let i = slot(ch, a[0], 0);
                lemma_slot_order(ch, a[0], 0);
                assert(find(ch, a[0]) == Some(NodeView::Branch(sub)));
                assert(0 <= i < ch.len());
                assert(ch[i].1 == NodeView::Branch(sub));
                assert(match ch[i].1 {
                    NodeView::Branch(s2) => well_formed(s2),
                    NodeView::Leaf(_) => true,
                });
                assert(well_formed(sub));
                lemma_insert_commute(sub, ta, sa, tb, sb);
            },
            Some(NodeView::Leaf(_)) => {},
            None => {
                assert(well_formed(Seq::<(Seq<char>, NodeView)>::empty()));
                lemma_insert_commute(seq![], ta, sa, tb, sb);
            },
        }
        assert(find(l, a[0]) == find(r, a[0]));
    }
    assert forall|k: Seq<char>| #[trigger] find(l, k) == find(r, k) by {}
    lemma_find_ext(l, r);
}

/// The test path of an outcome line, split at each `::`.
pub open spec fn line_path(l: Seq<char>) -> Seq<Seq<char>> {
    split_path(outcome_of(l)->Some_0.0)
}

/// The raw status of an outcome line.
pub open spec fn line_status(l: Seq<char>) -> Seq<char> {
    outcome_of(l)->Some_0.1
}

/// The test paths of the lines `s` stand apart, two by two.
pub open spec fn paths_apart(s: Seq<Seq<char>>) -> bool {
    forall|i: int, j: int| 0 <= i < j < s.len() ==> apart(line_path(s[i]), line_path(s[j]))
}

proof fn lemma_apart_remove(s: Seq<Seq<char>>, i: int)
    requires
        paths_apart(s),
        0 <= i < s.len(),
    ensures
        paths_apart(s.remove(i)),
        paths_apart(s.drop_last()),
{
    let r = s.remove(i);
    assert forall|a: int, b: int| 0 <= a < b < r.len() implies apart(
        line_path(r[a]),
        line_path(r[b]),
    ) by {
        let a2 = if a < i { a } else { a + 1 };
        let b2 = if b < i { b } else { b + 1 };
        assert(r[a] == s[a2] && r[b] == s[b2]);
    }
    let d = s.drop_last();
    assert forall|a: int, b: int| 0 <= a < b < d.len() implies apart(
        line_path(d[a]),
        line_path(d[b]),
    ) by {
        assert(d[a] == s[a] && d[b] == s[b]);
    }
}

/// The tree of lines `s` is the tree of `s` without line `i`, with line `i`
/// inserted last.
proof fn lemma_built_last(s: Seq<Seq<char>>, i: int)
    requires
        paths_apart(s),
        0 <= i < s.len(),
    ensures
        built(s) == insert_path(built(s.remove(i)), line_path(s[i]), line_status(s[i])),
    decreases s.len(),
{
    if i == s.len() - 1 {
        assert(s.remove(i) =~= s.drop_last());
    } else {
        let d = s.drop_last();
        lemma_apart_remove(s, i);
        lemma_built_last(d, i);
        assert(d[i] == s[i]);
        let base = built(d.remove(i));
        lemma_built_well_formed(d.remove(i));
        assert(apart(line_path(s[i]), line_path(s[s.len() - 1])));
        lemma_insert_commute(
            base,
            line_path(s[i]),
            line_status(s[i]),
            line_path(s.last()),
            line_status(s.last()),
        );
        assert(s.remove(i).drop_last() =~= d.remove(i));
        assert(s.remove(i).last() == s.last());
    }
}

/// Outcome lines whose test paths stand apart (no path is another, nor a
/// beginning of another) give the same namespace tree in any order.
pub proof fn lemma_built_any_order(s: Seq<Seq<char>>, t: Seq<Seq<char>>)
    requires
        s.to_multiset() == t.to_multiset(),
        paths_apart(s),
    ensures
        built(s) == built(t),
    decreases s.len(),
{
    broadcast use vstd::seq_lib::group_to_multiset_ensures;

    vstd::seq_lib::to_multiset_len(s);
    vstd::seq_lib::to_multiset_len(t);
    if t.len() == 0 {
        assert(s.len() == 0);
        assert(s =~= t);
    } else {
        let x = t.last();
        assert(t.contains(x)) by {
            assert(t[t.len() - 1] == x);
        }
        vstd::seq_lib::to_multiset_contains(t, x);
        vstd::seq_lib::to_multiset_contains(s, x);
        let i = choose|i: int| 0 <= i < s.len() && s[i] == x;
        vstd::seq_lib::to_multiset_remove(s, i);
        assert(t.remove(t.len() - 1) =~= t.drop_last());
        vstd::seq_lib::to_multiset_remove(t, t.len() - 1);
        lemma_apart_remove(s, i);
        lemma_built_last(s, i);
        lemma_built_any_order(s.remove(i), t.drop_last());
    }
}

/// Inserts the path `segs[from..]` with `status` into the branch entries
/// `ch`; see [`insert_path`].
fn make_node(ch: &mut Vec<Child>, segs: &Vec<Vec<char>>, from: usize, status: &Vec<char>)
    requires
        from <= segs.len(),
    ensures
        children_view(final(ch)@) == insert_path(
            children_view(old(ch)@),
            crate::text::views(segs@).subrange(from as int, segs.len() as int),
            status@,
        ),
    decreases segs.len() - from,
{
    let ghost sv = crate::text::views(segs@).subrange(from as int, segs.len() as int);
    let ghost cv = children_view(ch@);
    proof {
        lemma_children_view(ch@);
    }
    if from == segs.len() {
        return;
    }
    assert(sv[0] == segs@[from as int]@);
    let key = &segs[from];
    let mut i: usize = 0;
    while i < ch.len() && lt_chars(&ch[i].key, key)
        invariant
            i <= ch.len(),
            cv == children_view(ch@),
            children_view(ch@).len() == ch.len(),
            forall|k: int| 0 <= k < ch.len() ==> #[trigger] children_view(ch@)[k] == (ch@[k].key@, node_view(ch@[k].node)),
            slot(cv, key@, 0) == slot(cv, key@, i as int),
        decreases ch.len() - i,
    {
        i += 1;
    }
    proof {
        lemma_slot(cv, key@, i as int);
    }
    let ghost rest = crate::text::views(segs@).subrange(from + 1, segs.len() as int);
    assert(sv.drop_first() =~= rest);
    if i < ch.len() && crate::order::same_chars(&ch[i].key, key) {
        let mut child = ch.remove(i);
        let ghost removed = ch@;
        assert(cv[i as int] == (child.key@, node_view(child.node)));
        assert(child.key@ == key@);
        let ghost expected: Seq<(Seq<char>, NodeView)>;
        match child.node {
            Node::Path(mut sub) => {
                let ghost old_sub = sub@;
                assert(node_view(Node::Path(sub)) == NodeView::Branch(children_view(old_sub)));
                make_node(&mut sub, segs, from + 1, status);
                proof {
                    expected = cv.update(
                        i as int,
                        (key@, NodeView::Branch(children_view(sub@))),
                    );
                    assert(expected == insert_path(cv, sv, status@));
                }
                child.node = Node::Path(sub);
            },
            Node::Status(st) => {
                proof {
                    expected = cv;
                    assert(expected == insert_path(cv, sv, status@));
                }
                child.node = Node::Status(st);
            },
        }
        assert((child.key@, node_view(child.node)) == expected[i as int]);
        ch.insert(i, child);
        proof {
            lemma_children_view(ch@);
            lemma_children_view(removed);
        }
        assert(children_view(ch@) =~= expected);
    } else {
        let fresh = if from + 1 == segs.len() {
            let st = copy_range(status, 0, status.len());
            assert(st@ =~= status@);
            Node::Status(st)
        } else {
            let mut sub: Vec<Child> = Vec::new();
            assert(children_view(sub@) =~= seq![]);
            make_node(&mut sub, segs, from + 1, status);
            assert(node_view(Node::Path(sub)) == NodeView::Branch(children_view(sub@)));
            Node::Path(sub)
        };
        let k = copy_range(key, 0, key.len());
        assert(k@ =~= key@);
        assert(node_view(fresh) == if sv.len() == 1 {
            NodeView::Leaf(status@)
        } else {
            NodeView::Branch(insert_path(seq![], rest, status@))
        });
        let ghost c = Child { key: k, node: fresh };
        ch.insert(i, Child { key: k, node: fresh });
        proof {
            lemma_children_view(ch@);
        }
        assert(children_view(ch@) =~= cv.insert(i as int, (key@, node_view(fresh))));
        assert(children_view(ch@) =~= insert_path(cv, sv, status@));
    }
}

// ---------------------------------------------------------------- outcome status

/// How a test ended.
#[derive(Clone, Copy, Debug, PartialEq, Eq, Structural)]
pub enum Status {
    Pass,
    Ignored,
    Failed,
}

pub open spec fn IGNORED_WORD() -> Seq<char> {
    seq!['i', 'g', 'n', 'o', 'r', 'e', 'd']
}

/// The class of a raw status text: ending in `ok` is a pass (also a test
/// that should panic and did), starting with `ignored` is ignored, anything
/// else failed (also a test that should panic and did not).
pub open spec fn status_of(st: Seq<char>) -> Status {
    if st.len() >= 2 && st[st.len() - 2] == 'o' && st[st.len() - 1] == 'k' {
        Status::Pass
    } else if has_at(st, 0, IGNORED_WORD()) {
        Status::Ignored
    } else {
        Status::Failed
    }
}

/// The glyph drawn before a leaf of this status.
pub open spec fn icon_of(s: Status) -> Seq<char> {
    match s {
        Status::Pass => seq!['\u{2500}', ' ', '\u{2705}', ' '],
        Status::Ignored => seq!['\u{2500}', ' ', '\u{1F515}', ' '],
        Status::Failed => seq!['\u{2500}', ' ', '\u{274C}', ' '],
    }
}

/// The terminal style of a leaf of this status (empty: none).
pub open spec fn style_of(s: Status) -> Seq<char> {
    match s {
        Status::Pass => seq![],
        Status::Ignored => BRIGHT_BLACK(),
        Status::Failed => RED(),
    }
}

impl Status {
    /// Classifies a raw status text; see [`status_of`].
    pub fn new(status: &str) -> (r: Status)
        ensures
            r == status_of(status@),
    {
        let st = chars_of(status);
        let n = st.len();
        if n >= 2 && st[n - 2] == 'o' && st[n - 1] == 'k' {
            Status::Pass
        } else if crate::grammar::has_at_exec(&st, 0, &vec!['i', 'g', 'n', 'o', 'r', 'e', 'd']) {
            Status::Ignored
        } else {
            Status::Failed
        }
    }

    /// The glyph drawn before a leaf of this status.
    pub fn icon(self) -> (r: &'static str)
        ensures
            r@ == icon_of(self),
    {
        match self {
            Status::Pass => {
                proof {
                    reveal_strlit("\u{2500} \u{2705} ");
                }
                let r = "\u{2500} \u{2705} ";
                assert(r@ =~= icon_of(self));
                r
            },
            Status::Ignored => {
                proof {
                    reveal_strlit("\u{2500} \u{1F515} ");
                }
                let r = "\u{2500} \u{1F515} ";
                assert(r@ =~= icon_of(self));
                r
            },
            Status::Failed => {
                proof {
                    reveal_strlit("\u{2500} \u{274C} ");
                }
                let r = "\u{2500} \u{274C} ";
                assert(r@ =~= icon_of(self));
                r
            },
        }
    }

    /// The palette that draws a leaf of this status: its glyph as item glyph.
    pub fn glyph(self) -> (r: termtree::GlyphPalette)
        ensures
            palette_item(r) == icon_of(self),
    {
        palette_with_item(self.icon())
    }

    /// `s` in the colour of this status: passes stay plain, ignored tests
    /// are grey, failures red.
    pub fn set_color(self, s: &str) -> (r: String)
        ensures
            style_of(self).len() == 0 ==> r@ == s@,
            style_of(self).len() > 0 ==> shaded(style_of(self), s@, r@),
    {
        match self {
            Status::Pass => string_of(&chars_of(s)),
            Status::Ignored => bright_black(s),
            Status::Failed => red(s),
        }
    }
}

// ---------------------------------------------------------------- drawing

#[verifier::external_type_specification]
#[verifier::external_body]
#[verifier::reject_recursive_types(D)]
pub struct ExTree<D: core::fmt::Display>(termtree::Tree<D>);

/// A drawn tree of texts.
pub type TestTree = termtree::Tree<String>;

/// A row of a drawn tree: the node's depth, its text, and the item glyph of
/// its palette (drawn between the tree's lines and the text of every node
/// but the root).
pub type Row = (nat, Seq<char>, Seq<char>);

/// The rows of a tree, in the order drawn (each node, then its leaves).
pub uninterp spec fn tree_rows(t: termtree::Tree<String>) -> Seq<(nat, Seq<char>, Seq<char>)>;

/// The glyph that a node is drawn with by default.
pub open spec fn ITEM_INDENT() -> Seq<char> {
    seq!['\u{2500}', '\u{2500}', ' ']
}

/// The rows one level deeper.
pub open spec fn shift(rows: Seq<Row>) -> Seq<Row> {
    rows.map_values(|r: Row| ((r.0 + 1) as nat, r.1, r.2))
}

/// Relies on `termtree::Tree::new`: one node, with the default glyphs.
#[verifier::external_body]
pub(crate) fn tree_new(root: String) -> (r: TestTree)
    ensures
        tree_rows(r) == seq![(0nat, root@, ITEM_INDENT())],
{
    termtree::Tree::new(root)
}

/// Relies on `termtree::Tree::push`: the leaf goes last among the node's leaves.
#[verifier::external_body]
pub(crate) fn tree_push(t: &mut TestTree, leaf: TestTree)
    ensures
        tree_rows(*final(t)) == tree_rows(*old(t)) + shift(tree_rows(leaf)),
{
    t.push(leaf);
}

#[verifier::external_type_specification]
#[verifier::external_body]
pub struct ExGlyphPalette(termtree::GlyphPalette);

/// The glyph that a palette draws between the tree's lines and a node's text.
pub uninterp spec fn palette_item(g: termtree::GlyphPalette) -> Seq<char>;

/// Relies on `termtree::GlyphPalette::new` and its public field
/// `item_indent`: the default palette, with `icon` as the item glyph.
#[verifier::external_body]
fn palette_with_item(icon: &'static str) -> (r: termtree::GlyphPalette)
    ensures
        palette_item(r) == icon@,
{
    let mut glyphs = termtree::GlyphPalette::new();
    glyphs.item_indent = icon;
    glyphs
}

/// Relies on `termtree::Tree::with_glyphs`: the node is drawn with the
/// palette `g`.
#[verifier::external_body]
fn tree_with_glyphs(t: TestTree, g: termtree::GlyphPalette) -> (r: TestTree)
    requires
        tree_rows(t).len() > 0,
    ensures
        tree_rows(r) == tree_rows(t).update(0, (tree_rows(t)[0].0, tree_rows(t)[0].1, palette_item(g))),
{
    t.with_glyphs(g)
}

/// A row to draw: depth, plain text, glyph, and terminal style (empty: none).
pub type Styled = (nat, Seq<char>, Seq<char>, Seq<char>);

pub open spec fn styled_shift(rows: Seq<Styled>) -> Seq<Styled> {
    rows.map_values(|r: Styled| ((r.0 + 1) as nat, r.1, r.2, r.3))
}

/// The rows of an entry of the namespace tree: a leaf is one row, with its
/// status's glyph and colour; a branch is a plain row, then its entries one
/// level deeper.
pub open spec fn entry_rows(key: Seq<char>, node: NodeView) -> Seq<Styled>
    decreases node, 0nat,
{
    match node {
        NodeView::Leaf(st) => seq![(0nat, key, icon_of(status_of(st)), style_of(status_of(st)))],
        NodeView::Branch(ch) => seq![(0nat, key, ITEM_INDENT(), seq![])] + styled_shift(
            entries_rows(ch),
        ),
    }
}

/// The rows of the entries `ch`, in order.
pub open spec fn entries_rows(ch: Seq<(Seq<char>, NodeView)>) -> Seq<Styled>
    decreases ch, 1nat,
{
    if ch.len() == 0 {
        seq![]
    } else {
        entries_rows(ch.drop_last()) + entry_rows(ch.last().0, ch.last().1)
    }
}

/// The drawn rows `rows` are the rows `want`: same depths and glyphs, and
/// each text shown in its style.
pub open spec fn drawn(rows: Seq<Row>, want: Seq<Styled>) -> bool {
    &&& rows.len() == want.len()
    &&& forall|k: int|
        0 <= k < rows.len() ==> {
            &&& (#[trigger] rows[k]).0 == want[k].0
            &&& rows[k].2 == want[k].2
            &&& want[k].3.len() == 0 ==> rows[k].1 == want[k].1
            &&& want[k].3.len() > 0 ==> shaded(want[k].3, want[k].1, rows[k].1)
        }
}

pub proof fn lemma_drawn_concat(r1: Seq<Row>, w1: Seq<Styled>, r2: Seq<Row>, w2: Seq<Styled>)
    requires
        drawn(r1, w1),
        drawn(r2, w2),
    ensures
        drawn(r1 + r2, w1 + w2),
{
    assert forall|k: int| 0 <= k < (r1 + r2).len() implies {
        &&& (#[trigger] (r1 + r2)[k]).0 == (w1 + w2)[k].0
        &&& (r1 + r2)[k].2 == (w1 + w2)[k].2
        &&& (w1 + w2)[k].3.len() == 0 ==> (r1 + r2)[k].1 == (w1 + w2)[k].1
        &&& (w1 + w2)[k].3.len() > 0 ==> shaded((w1 + w2)[k].3, (w1 + w2)[k].1, (r1 + r2)[k].1)
    } by {
        if k < r1.len() {
            assert(r1[k] == (r1 + r2)[k]);
        } else {
            assert(r2[k - r1.len()] == (r1 + r2)[k]);
        }
    }
}

pub proof fn lemma_drawn_shift(r: Seq<Row>, w: Seq<Styled>)
    requires
        drawn(r, w),
    ensures
        drawn(shift(r), styled_shift(w)),
{
    assert forall|k: int| 0 <= k < shift(r).len() implies {
        &&& (#[trigger] shift(r)[k]).0 == styled_shift(w)[k].0
        &&& shift(r)[k].2 == styled_shift(w)[k].2
        &&& styled_shift(w)[k].3.len() == 0 ==> shift(r)[k].1 == styled_shift(w)[k].1
        &&& styled_shift(w)[k].3.len() > 0 ==> shaded(styled_shift(w)[k].3, styled_shift(w)[k].1, shift(r)[k].1)
    } by {
        assert(r[k] == r[k]);
        assert(w[k] == w[k]);
    }
}

/// Draws the entry `key` / `node` of a namespace tree; see [`entry_rows`].
fn make_tree(key: &Vec<char>, node: &Node) -> (r: TestTree)
    ensures
        drawn(tree_rows(r), entry_rows(key@, node_view(*node))),
    decreases node,
{
    match node {
        Node::Status(st) => {
            let status = Status::new(string_of(st).as_str());
            let label = status.set_color(string_of(key).as_str());
            let t = tree_with_glyphs(tree_new(label), status.glyph());
            assert(tree_rows(t) =~= seq![(0nat, label@, icon_of(status))]);
            t
        },
        Node::Path(ch) => {
            let mut t = tree_new(string_of(key));
            let ghost head = seq![(0nat, key@, ITEM_INDENT(), Seq::<char>::empty())];
            assert(drawn(tree_rows(t), head));
            proof {
                lemma_children_view(ch@);
            }
            let mut i: usize = 0;
            assert(ch@.subrange(0, 0) =~= Seq::<Child>::empty());
            assert(head + styled_shift(entries_rows(children_view(ch@.subrange(0, 0)))) =~= head);
            while i < ch.len()
                invariant
                    i <= ch.len(),
                    *node == Node::Path(*ch),
                    children_view(ch@).len() == ch.len(),
                    forall|k: int|
                        0 <= k < ch.len() ==> #[trigger] children_view(ch@)[k] == (
                            ch@[k].key@,
                            node_view(ch@[k].node),
                        ),
                    drawn(
                        tree_rows(t),
                        head + styled_shift(entries_rows(children_view(ch@.subrange(0, i as int)))),
                    ),
                decreases ch.len() - i,
            {
                proof {
                    vstd::std_specs::vec::axiom_vec_index_decreases(*ch, i as int);
                    assert(*node == Node::Path(*ch));
                    assert(decreases_to!(*node => (*node)->Path_0));
                    assert(decreases_to!(*node => ch[i as int]));
                    assert(decreases_to!(*node => ch[i as int].node));
                }
                let sub = make_tree(&ch[i].key, &ch[i].node);
                let ghost before = tree_rows(t);
                tree_push(&mut t, sub);
                proof {
                    lemma_drawn_shift(tree_rows(sub), entry_rows(ch@[i as int].key@, node_view(ch@[i as int].node)));
                    let prev = children_view(ch@.subrange(0, i as int));
                    let next = children_view(ch@.subrange(0, i + 1));
                    lemma_children_view(ch@.subrange(0, i as int));
                    lemma_children_view(ch@.subrange(0, i + 1));
                    assert(next.drop_last() =~= prev);
                    assert(next.last() == (ch@[i as int].key@, node_view(ch@[i as int].node)));
                    assert(entries_rows(next) == entries_rows(prev) + entry_rows(next.last().0, next.last().1));
                    assert(styled_shift(entries_rows(next)) =~= styled_shift(entries_rows(prev)) + styled_shift(entry_rows(next.last().0, next.last().1)));
                    lemma_drawn_concat(
                        before,
                        head + styled_shift(entries_rows(prev)),
                        shift(tree_rows(sub)),
                        styled_shift(entry_rows(next.last().0, next.last().1)),
                    );
                    assert(head + styled_shift(entries_rows(next)) =~= head + styled_shift(entries_rows(prev)) + styled_shift(entry_rows(next.last().0, next.last().1)));
                }
                i += 1;
            }
            assert(ch@.subrange(0, i as int) =~= ch@);
            t
        },
    }
}

// ---------------------------------------------------------------- paths

pub open spec fn COLONS() -> Seq<char> {
    seq![':', ':']
}

/// The index of the first `::` at or after `i`, or the end of `s`.
pub open spec fn sep_at(s: Seq<char>, i: int) -> int
    decreases s.len() - i,
{
    if i < 0 || i >= s.len() || has_at(s, i, COLONS()) {
        i
    } else {
        sep_at(s, i + 1)
    }
}

/// The pieces of `s[i..]` between the occurrences of `::`, left to right.
pub open spec fn pieces_from(s: Seq<char>, i: int) -> Seq<Seq<char>>
    decreases s.len() - i,
{
    if i < 0 || i > s.len() {
        seq![]
    } else {
        let e = sep_at(s, i);
        if e + 2 > s.len() || e < i {
            seq![s.subrange(i, s.len() as int)]
        } else {
            seq![s.subrange(i, e)] + pieces_from(s, e + 2)
        }
    }
}

/// The segments of a test path, split at each `::`.
pub open spec fn split_path(s: Seq<char>) -> Seq<Seq<char>> {
    pieces_from(s, 0)
}

proof fn lemma_sep_at(s: Seq<char>, i: int)
    requires
        0 <= i <= s.len(),
    ensures
        i <= sep_at(s, i) <= s.len(),
        sep_at(s, i) < s.len() ==> has_at(s, sep_at(s, i), COLONS()),
    decreases s.len() - i,
{
    if i < s.len() && !has_at(s, i, COLONS()) {
        lemma_sep_at(s, i + 1);
    }
}

/// Splits a test path at each `::`; see [`split_path`].
fn split_path_exec(s: &Vec<char>) -> (r: Vec<Vec<char>>)
    ensures
        views(r@) == split_path(s@),
{
    let mut out: Vec<Vec<char>> = Vec::new();
    let mut start: usize = 0;
    let mut j: usize = 0;
    let colons: Vec<char> = vec![':', ':'];
    assert(colons@ =~= COLONS());
    loop
        invariant
            start <= j <= s.len(),
            colons@ == COLONS(),
            sep_at(s@, start as int) == sep_at(s@, j as int),
            views(out@) + pieces_from(s@, start as int) == split_path(s@),
        decreases s.len() - j,
    {
        proof {
            lemma_sep_at(s@, j as int);
        }
        if j == s.len() || crate::grammar::has_at_exec(s, j, &colons) {
            let piece = copy_range(s, start, j);
            let ghost before = views(out@);
            out.push(piece);
            assert(views(out@) =~= before.push(piece@));
            if j == s.len() {
                assert(pieces_from(s@, start as int) =~= seq![s@.subrange(start as int, j as int)]);
                assert(views(out@) =~= before + pieces_from(s@, start as int));
                return out;
            }
            assert(pieces_from(s@, start as int) == seq![s@.subrange(start as int, j as int)]
                + pieces_from(s@, j + 2));
            assert(views(out@) + pieces_from(s@, j + 2) =~= before + pieces_from(
                s@,
                start as int,
            ));
            start = j + 2;
            j = j + 2;
        } else {
            j += 1;
        }
    }
}

/// The contents of each string slice.
pub open spec fn str_views(v: Seq<&str>) -> Seq<Seq<char>> {
    v.map_values(|s: &str| s@)
}

/// The namespace tree of the outcome lines `ls`, inserted in order.
pub open spec fn built(ls: Seq<Seq<char>>) -> Seq<(Seq<char>, NodeView)>
    decreases ls.len(),
{
    if ls.len() == 0 {
        seq![]
    } else {
        let parts = outcome_of(ls.last())->Some_0;
        insert_path(built(ls.drop_last()), split_path(parts.0), parts.1)
    }
}

/// Makes the outcome lines pretty: the namespace tree of their paths under
/// a root labeled `root`, or `None` where a line is no outcome line.
pub fn make_pretty(root: &str, lines: &Vec<&str>) -> (r: Option<TestTree>)
    ensures
        r is Some <==> forall|i: int| 0 <= i < lines.len() ==> crate::grammar::is_outcome(
            #[trigger] lines@[i]@,
        ),
        r matches Some(t) ==> drawn(
            tree_rows(t),
            entry_rows(root@, NodeView::Branch(built(str_views(lines@)))),
        ),
        well_formed(built(str_views(lines@))),
{
    proof {
        lemma_built_well_formed(str_views(lines@));
    }
    let mut top: Vec<Child> = Vec::new();
    let mut i: usize = 0;
    assert(str_views(lines@).subrange(0, 0) =~= seq![]);
    assert(children_view(top@) =~= seq![]);
    while i < lines.len()
        invariant
            i <= lines.len(),
            children_view(top@) == built(str_views(lines@).subrange(0, i as int)),
            well_formed(built(str_views(lines@))),
            forall|k: int| 0 <= k < i ==> crate::grammar::is_outcome(#[trigger] lines@[k]@),
        decreases lines.len() - i,
    {
        let l = chars_of(lines[i]);
        let p = match outcome_end_exec(&l) {
            Some(p) => p,
            None => {
                return None;
            },
        };
        let split = copy_range(&l, 5, p);
        let status = copy_range(&l, p + 5, l.len());
        let segs = split_path_exec(&split);
        let ghost prefix = str_views(lines@).subrange(0, i + 1);
        assert(prefix.drop_last() =~= str_views(lines@).subrange(0, i as int));
        assert(prefix.last() == l@);
        assert(views(segs@).subrange(0, segs.len() as int) =~= views(segs@));
        make_node(&mut top, &segs, 0, &status);
        i += 1;
    }
    assert(str_views(lines@).subrange(0, i as int) =~= str_views(lines@));
    let node = Node::Path(top);
    let t = make_tree(&chars_of(root), &node);
    Some(t)
}

/// What the glyphs of the drawn tree mean.
pub const ICON_NOTATION: &'static str = "
Icon Notation:
\u{2500} \u{2705} pass (including the case that should panic and did panic)
\u{2500} \u{274C} fail (including the case that should panic but didn't panic)
\u{2500} \u{1F515} ignored (with reason omitted)
";

} // verus!
