//! The lexicographic order of character sequences (the order of `str`), and a
//! sort of lines under it.

use crate::text::views;
use vstd::multiset::Multiset;
use vstd::prelude::*;

verus! {

/// `a` comes strictly before `b`, comparing characters by code point.
pub open spec fn seq_lt(a: Seq<char>, b: Seq<char>) -> bool
    decreases a.len(),
{
    if a.len() == 0 {
        b.len() > 0
    } else if b.len() == 0 {
        false
    } else if a[0] != b[0] {
        (a[0] as u32) < (b[0] as u32)
    } else {
        seq_lt(a.drop_first(), b.drop_first())
    }
}

pub open spec fn seq_le(a: Seq<char>, b: Seq<char>) -> bool {
    a == b || seq_lt(a, b)
}

/// Each element is at most every later one.
pub open spec fn sorted(s: Seq<Seq<char>>) -> bool {
    forall|i: int, j: int| 0 <= i < j < s.len() ==> seq_le(s[i], s[j])
}

pub proof fn lemma_lt_asym(a: Seq<char>, b: Seq<char>)
    ensures
        !(seq_lt(a, b) && seq_lt(b, a)),
        !seq_lt(a, a),
    decreases a.len(),
{
    if a.len() > 0 && b.len() > 0 && a[0] == b[0] {
        lemma_lt_asym(a.drop_first(), b.drop_first());
    }
    if a.len() > 0 {
        lemma_lt_asym(a.drop_first(), a.drop_first());
    }
}

pub proof fn lemma_lt_trans(a: Seq<char>, b: Seq<char>, c: Seq<char>)
    requires
        seq_lt(a, b),
        seq_lt(b, c),
    ensures
        seq_lt(a, c),
    decreases a.len(),
{
    if a.len() > 0 && b.len() > 0 && c.len() > 0 && a[0] == b[0] && b[0] == c[0] {
        lemma_lt_trans(a.drop_first(), b.drop_first(), c.drop_first());
    }
}

pub proof fn lemma_lt_total(a: Seq<char>, b: Seq<char>)
    requires
        a != b,
    ensures
        seq_lt(a, b) || seq_lt(b, a),
    decreases a.len(),
{
    if a.len() == 0 || b.len() == 0 {
        if a.len() == 0 && b.len() == 0 {
            assert(a =~= b);
        }
    } else if a[0] != b[0] {
        vstd::utf8::char_u32_cast(a[0], a[0] as u32);
        vstd::utf8::char_u32_cast(b[0], b[0] as u32);
    } else {
        if a.drop_first() == b.drop_first() {
            assert(a =~= seq![a[0]] + a.drop_first());
            assert(b =~= seq![b[0]] + b.drop_first());
        }
        lemma_lt_total(a.drop_first(), b.drop_first());
    }
}

pub proof fn lemma_le_trans(a: Seq<char>, b: Seq<char>, c: Seq<char>)
    requires
        seq_le(a, b),
        seq_le(b, c),
    ensures
        seq_le(a, c),
{
    if seq_lt(a, b) && seq_lt(b, c) {
        lemma_lt_trans(a, b, c);
    }
}

/// Two sorted sequences that hold the same elements, as many times each, are
/// equal.
pub proof fn lemma_sorted_unique(x: Seq<Seq<char>>, y: Seq<Seq<char>>)
    requires
        sorted(x),
        sorted(y),
        x.to_multiset() == y.to_multiset(),
    ensures
        x == y,
    decreases x.len(),
{
    broadcast use vstd::seq_lib::group_to_multiset_ensures;

    vstd::seq_lib::to_multiset_len(x);
    vstd::seq_lib::to_multiset_len(y);
    if x.len() == 0 {
        assert(y.to_multiset().len() == 0);
        assert(y =~= x);
    } else {
        assert(y.len() == x.len());
        assert(x.contains(x[0])) by {
            assert(0 <= 0 < x.len() && x[0] == x[0]);
        }
        assert(y.contains(y[0])) by {
            assert(0 <= 0 < y.len() && y[0] == y[0]);
        }
        vstd::seq_lib::to_multiset_contains(x, x[0]);
        vstd::seq_lib::to_multiset_contains(y, x[0]);
        vstd::seq_lib::to_multiset_contains(x, y[0]);
        vstd::seq_lib::to_multiset_contains(y, y[0]);
        assert(x.contains(y[0]));
        let i = choose|i: int| 0 <= i < y.len() && y[i] == x[0];
        let j = choose|j: int| 0 <= j < x.len() && x[j] == y[0];
        assert(seq_le(y[0], x[0])) by {
            if i > 0 {
                assert(seq_le(y[0], y[i]));
            }
        }
        assert(seq_le(x[0], y[0])) by {
            if j > 0 {
                assert(seq_le(x[0], x[j]));
            }
        }
        lemma_lt_asym(x[0], y[0]);
        assert(x[0] == y[0]);
        assert(x.remove(0) =~= x.drop_first());
        assert(y.remove(0) =~= y.drop_first());
        assert(x.drop_first().to_multiset() == y.drop_first().to_multiset());
        lemma_sorted_unique(x.drop_first(), y.drop_first());
        assert(x =~= seq![x[0]] + x.drop_first());
        assert(y =~= seq![y[0]] + y.drop_first());
    }
}

/// Compares two character sequences; see [`seq_lt`].
pub fn lt_chars(a: &Vec<char>, b: &Vec<char>) -> (r: bool)
    ensures
        r == seq_lt(a@, b@),
{
    let mut i: usize = 0;
    assert(a@.skip(0) =~= a@ && b@.skip(0) =~= b@);
    while i < a.len() && i < b.len() && a[i] == b[i]
        invariant
            i <= a.len(),
            i <= b.len(),
            seq_lt(a@, b@) == seq_lt(a@.skip(i as int), b@.skip(i as int)),
        decreases a.len() - i,
    {
        assert(a@.skip(i as int).drop_first() =~= a@.skip(i + 1));
        assert(b@.skip(i as int).drop_first() =~= b@.skip(i + 1));
        i += 1;
    }
    if i == a.len() {
        i < b.len()
    } else if i == b.len() {
        false
    } else {
        (a[i] as u32) < (b[i] as u32)
    }
}

/// Sorts lines in the lexicographic order of their characters.
pub fn sort_lines(v: Vec<Vec<char>>) -> (r: Vec<Vec<char>>)
    ensures
        sorted(views(r@)),
        views(r@).to_multiset() == views(v@).to_multiset(),
{
    broadcast use vstd::seq_lib::group_to_multiset_ensures;

    let ghost m0 = views(v@).to_multiset();
    let mut v = v;
    let mut r: Vec<Vec<char>> = Vec::new();
    assert(views(r@) =~= seq![]);
    assert(views(r@).to_multiset().len() == 0);
    assert(views(r@).to_multiset() =~= Multiset::empty());
    assert(views(r@).to_multiset().add(views(v@).to_multiset()) =~= m0);
    while v.len() > 0
        invariant
            sorted(views(r@)),
            views(r@).to_multiset().add(views(v@).to_multiset()) == m0,
        decreases v.len(),
    {
        let ghost vs = views(v@);
        let x = v.pop().unwrap();
        assert(vs =~= views(v@).push(x@));
        let mut pos: usize = 0;
        while pos < r.len() && !lt_chars(&x, &r[pos])
            invariant
                pos <= r.len(),
                forall|k: int| 0 <= k < pos ==> seq_le(#[trigger] views(r@)[k], x@),
            decreases r.len() - pos,
        {
            proof {
                if views(r@)[pos as int] != x@ {
                    lemma_lt_total(views(r@)[pos as int], x@);
                }
            }
            pos += 1;
        }
        let ghost rs = views(r@);
        proof {
            assert forall|k: int| pos <= k < rs.len() implies seq_lt(x@, #[trigger] rs[k]) by {
                if k > pos {
                    assert(seq_le(rs[pos as int], rs[k]));
                    if rs[pos as int] != rs[k] {
                        lemma_lt_trans(x@, rs[pos as int], rs[k]);
                    }
                }
            }
        }
        r.insert(pos, x);
        assert(views(r@) =~= rs.insert(pos as int, x@));
        proof {
            vstd::seq_lib::to_multiset_insert(rs, pos as int, x@);
            vstd::seq_lib::to_multiset_build(views(v@), x@);
        }
        proof {
            let s = views(r@);
            assert forall|i: int, j: int| 0 <= i < j < s.len() implies seq_le(s[i], s[j]) by {
                if j < pos {
                    assert(s[i] == rs[i] && s[j] == rs[j]);
                } else if j == pos {
                    assert(s[i] == rs[i]);
                } else if i == pos {
                    assert(s[j] == rs[j - 1]);
                } else if i < pos {
                    assert(s[i] == rs[i] && s[j] == rs[j - 1]);
                    lemma_le_trans(rs[i], x@, rs[j - 1]);
                } else {
                    assert(s[i] == rs[i - 1] && s[j] == rs[j - 1]);
                }
            }
        }
        assert(views(r@).to_multiset().add(views(v@).to_multiset()) =~= m0);
    }
    assert(views(v@) =~= seq![]);
    assert(views(r@).to_multiset().add(views(v@).to_multiset()) =~= views(r@).to_multiset());
    r
}

/// The two sequences are equal.
pub fn same_chars(a: &Vec<char>, b: &Vec<char>) -> (r: bool)
    ensures
        r == (a@ == b@),
{
    if a.len() != b.len() {
        return false;
    }
    let mut i: usize = 0;
    while i < a.len()
        invariant
            i <= a.len() == b.len(),
            a@.subrange(0, i as int) == b@.subrange(0, i as int),
        decreases a.len() - i,
    {
        if a[i] != b[i] {
            return false;
        }
        i += 1;
        assert(a@.subrange(0, i as int) =~= b@.subrange(0, i as int));
    }
    assert(a@ =~= a@.subrange(0, i as int));
    assert(b@ =~= b@.subrange(0, i as int));
    true
}

} // verus!
