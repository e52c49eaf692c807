//! The order of `str`: by characters, a proper prefix first. Attributes are
//! put in this order of their keys where output must not depend on the
//! order in which they were set.
use crate::node::{attr_keys_unique, clone_opt, opt_view};
use vstd::prelude::*;
use vstd::string::StrSliceExecFns;

verus! {

/// `a` comes before `b`: at the first place where they differ, `a` has the
/// smaller character, or `a` is a proper prefix of `b`.
pub open spec fn lex_lt(a: Seq<char>, b: Seq<char>) -> bool
    decreases a.len(),
{
    if a.len() == 0 {
        b.len() > 0
    } else if b.len() == 0 {
        false
    } else if a[0] != b[0] {
        a[0] < b[0]
    } else {
        lex_lt(a.drop_first(), b.drop_first())
    }
}

pub proof fn lemma_lex_irreflexive(a: Seq<char>)
    ensures
        !lex_lt(a, a),
    decreases a.len(),
{
    if a.len() > 0 {
        lemma_lex_irreflexive(a.drop_first());
    }
}

pub proof fn lemma_lex_transitive(a: Seq<char>, b: Seq<char>, c: Seq<char>)
    requires
        lex_lt(a, b),
        lex_lt(b, c),
    ensures
        lex_lt(a, c),
    decreases a.len(),
{
    if a.len() > 0 && b.len() > 0 && c.len() > 0 {
        if a[0] == b[0] && b[0] == c[0] {
            lemma_lex_transitive(a.drop_first(), b.drop_first(), c.drop_first());
        }
    }
}

pub proof fn lemma_lex_total(a: Seq<char>, b: Seq<char>)
    requires
        a != b,
    ensures
        lex_lt(a, b) || lex_lt(b, a),
    decreases a.len(),
{
    if a.len() > 0 && b.len() > 0 {
        if a[0] == b[0] {
            if a.drop_first() == b.drop_first() {
                assert(a =~= seq![a[0]] + a.drop_first());
                assert(b =~= seq![b[0]] + b.drop_first());
            }
            lemma_lex_total(a.drop_first(), b.drop_first());
        }
    } else if a.len() == 0 && b.len() == 0 {
        assert(a =~= b);
    }
}

/// Whether `a` comes before `b`.
pub fn str_lt(a: &str, b: &str) -> (r: bool)
    ensures
        r == lex_lt(a@, b@),
{
    let n = a.unicode_len();
    let m = b.unicode_len();
    let mut i: usize = 0;
    assert(a@.skip(0) =~= a@);
    assert(b@.skip(0) =~= b@);
    while i < n && i < m
        invariant
            n == a@.len(),
            m == b@.len(),
            i <= n,
            i <= m,
            lex_lt(a@, b@) == lex_lt(a@.skip(i as int), b@.skip(i as int)),
        decreases n - i,
    {
        let x = a.get_char(i);
        let y = b.get_char(i);
        assert(a@.skip(i as int)[0] == x);
        assert(b@.skip(i as int)[0] == y);
        if x != y {
            return x < y;
        }
        assert(a@.skip(i as int).drop_first() =~= a@.skip(i + 1));
        assert(b@.skip(i as int).drop_first() =~= b@.skip(i + 1));
        i = i + 1;
    }
    i < m && i == n
}

/// Keys strictly rising.
pub open spec fn keys_sorted(attrs: Seq<(String, Option<String>)>) -> bool {
    forall|i: int, j: int|
        0 <= i < j < attrs.len() ==> lex_lt(#[trigger] attrs[i].0@, #[trigger] attrs[j].0@)
}

/// Some attribute of `attrs` has key `k` and value `v`.
pub open spec fn has_entry(
    attrs: Seq<(String, Option<String>)>,
    k: Seq<char>,
    v: Option<Seq<char>>,
) -> bool {
    exists|j: int| 0 <= j < attrs.len() && #[trigger] attrs[j].0@ == k && opt_view(attrs[j].1) == v
}

/// `a` and `b` set the same keys to the same values.
pub open spec fn same_content(
    a: Seq<(String, Option<String>)>,
    b: Seq<(String, Option<String>)>,
) -> bool {
    &&& forall|i: int| 0 <= i < a.len() ==> has_entry(b, (#[trigger] a[i]).0@, opt_view(a[i].1))
    &&& forall|j: int| 0 <= j < b.len() ==> has_entry(a, (#[trigger] b[j]).0@, opt_view(b[j].1))
}

/// The keys and values of an attribute list, as characters.
pub open spec fn attr_views(attrs: Seq<(String, Option<String>)>) -> Seq<
    (Seq<char>, Option<Seq<char>>),
> {
    attrs.map_values(|a: (String, Option<String>)| (a.0@, opt_view(a.1)))
}

/// The attributes, copied, in the order of their keys.
pub fn sorted_attributes(attrs: &Vec<(String, Option<String>)>) -> (r: Vec<
    (String, Option<String>),
>)
    requires
        attr_keys_unique(attrs@),
    ensures
        keys_sorted(r@),
        same_content(r@, attrs@),
        r@.len() == attrs@.len(),
{
    let mut out: Vec<(String, Option<String>)> = Vec::new();
    let mut i: usize = 0;
    while i < attrs.len()
        invariant
            attr_keys_unique(attrs@),
            i <= attrs@.len(),
            out@.len() == i,
            keys_sorted(out@),
            forall|k: int|
                0 <= k < i ==> has_entry(out@, (#[trigger] attrs@[k]).0@, opt_view(attrs@[k].1)),
            forall|k: int|
                0 <= k < out@.len() ==> exists|m: int|
                    0 <= m < i && #[trigger] attrs@[m].0@ == (#[trigger] out@[k]).0@ && opt_view(
                        attrs@[m].1,
                    ) == opt_view(out@[k].1),
        decreases attrs@.len() - i,
    {
        let a = &attrs[i];
        let mut p: usize = 0;
        while p < out.len() && str_lt(out[p].0.as_str(), a.0.as_str())
            invariant
                p <= out@.len(),
                forall|k: int| 0 <= k < p ==> lex_lt((#[trigger] out@[k]).0@, a.0@),
            decreases out@.len() - p,
        {
            p = p + 1;
        }
        let x = (a.0.clone(), clone_opt(&a.1));
        let ghost old_out = out@;
        proof {
            // the new key differs from every key placed so far
            assert forall|k: int| 0 <= k < old_out.len() implies (#[trigger] old_out[k]).0@ != a.0@ by {
                let m = choose|m: int|
                    0 <= m < i && #[trigger] attrs@[m].0@ == old_out[k].0@ && opt_view(attrs@[m].1)
                        == opt_view(old_out[k].1);
                assert(attrs@[m].0@ != attrs@[i as int].0@);
            }
            if p < old_out.len() {
                lemma_lex_total(old_out[p as int].0@, a.0@);
                assert(lex_lt(a.0@, old_out[p as int].0@));
            }
            assert forall|k: int| p <= k < old_out.len() implies lex_lt(a.0@, (#[trigger] old_out[k]).0@) by {
                if k > p {
                    lemma_lex_transitive(a.0@, old_out[p as int].0@, old_out[k].0@);
                }
            }
        }
        out.insert(p, x);
        proof {
            old_out.insert_ensures(p as int, x);
            assert(out@ == old_out.insert(p as int, x));
            assert forall|u: int, v: int| 0 <= u < v < out@.len() implies lex_lt(
                #[trigger] out@[u].0@,
                #[trigger] out@[v].0@,
            ) by {
                if v < p {
                    assert(out@[u] == old_out[u] && out@[v] == old_out[v]);
                } else if v == p {
                    assert(out@[u] == old_out[u]);
                } else if u < p {
                    assert(out@[u] == old_out[u] && out@[v] == old_out[v - 1]);
                    lemma_lex_transitive(old_out[u].0@, a.0@, old_out[v - 1].0@);
                } else if u == p {
                    assert(out@[v] == old_out[v - 1]);
                } else {
                    assert(out@[u] == old_out[u - 1] && out@[v] == old_out[v - 1]);
                }
            }
            assert forall|k: int| 0 <= k < i + 1 implies has_entry(
                out@,
                (#[trigger] attrs@[k]).0@,
                opt_view(attrs@[k].1),
            ) by {
                if k == i {
                    assert(out@[p as int] == x);
                    assert(out@[p as int].0@ == attrs@[k].0@ && opt_view(out@[p as int].1) == opt_view(
                        attrs@[k].1,
                    ));
                } else {
                    assert(has_entry(old_out, attrs@[k].0@, opt_view(attrs@[k].1)));
                    let j = choose|j: int|
                        0 <= j < old_out.len() && #[trigger] old_out[j].0@ == attrs@[k].0@ && opt_view(
                            old_out[j].1,
                        ) == opt_view(attrs@[k].1);
                    if j < p {
                        assert(out@[j] == old_out[j]);
                        assert(out@[j].0@ == attrs@[k].0@);
                    } else {
                        assert(out@[j + 1] == old_out[j]);
                        assert(out@[j + 1].0@ == attrs@[k].0@);
                    }
                }
            }
            assert forall|k: int| 0 <= k < out@.len() implies exists|m: int|
                0 <= m < i + 1 && #[trigger] attrs@[m].0@ == (#[trigger] out@[k]).0@ && opt_view(
                    attrs@[m].1,
                ) == opt_view(out@[k].1) by {
                if k == p {
                    assert(attrs@[i as int].0@ == out@[k].0@);
                } else if k < p {
                    assert(out@[k] == old_out[k]);
                    let m = choose|m: int|
                        0 <= m < i && #[trigger] attrs@[m].0@ == (#[trigger] old_out[k]).0@ && opt_view(
                            attrs@[m].1,
                        ) == opt_view(old_out[k].1);
                    assert(attrs@[m].0@ == out@[k].0@);
                } else {
                    assert(out@[k] == old_out[k - 1]);
                    let m = choose|m: int|
                        0 <= m < i && #[trigger] attrs@[m].0@ == (#[trigger] old_out[k - 1]).0@
                            && opt_view(attrs@[m].1) == opt_view(old_out[k - 1].1);
                    assert(attrs@[m].0@ == out@[k].0@);
                }
            }
        }
        i = i + 1;
    }
    proof {
        assert forall|k: int| 0 <= k < out@.len() implies has_entry(
            attrs@,
            (#[trigger] out@[k]).0@,
            opt_view(out@[k].1),
        ) by {
            let m = choose|m: int|
                0 <= m < i && #[trigger] attrs@[m].0@ == (#[trigger] out@[k]).0@ && opt_view(
                    attrs@[m].1,
                ) == opt_view(out@[k].1);
            assert(attrs@[m].0@ == out@[k].0@);
        }
    }
    out
}

/// Two lists with keys strictly rising that set the same keys to the same
/// values are the same list.
pub proof fn lemma_sorted_unique_content(
    a: Seq<(String, Option<String>)>,
    b: Seq<(String, Option<String>)>,
)
    requires
        keys_sorted(a),
        keys_sorted(b),
        same_content(a, b),
    ensures
        attr_views(a) == attr_views(b),
    decreases a.len(),
{
    if a.len() == 0 {
        if b.len() > 0 {
            assert(has_entry(a, b[0].0@, opt_view(b[0].1)));
        }
        assert(attr_views(a) =~= attr_views(b));
        return;
    }
    if b.len() == 0 {
        assert(has_entry(b, a[0].0@, opt_view(a[0].1)));
        return;
    }
    assert(has_entry(b, a[0].0@, opt_view(a[0].1)));
    let j = choose|j: int| 0 <= j < b.len() && #[trigger] b[j].0@ == a[0].0@ && opt_view(b[j].1) == opt_view(a[0].1);
    assert(has_entry(a, b[0].0@, opt_view(b[0].1)));
    let i = choose|i: int| 0 <= i < a.len() && #[trigger] a[i].0@ == b[0].0@ && opt_view(a[i].1) == opt_view(b[0].1);
    if j > 0 {
        assert(lex_lt(b[0].0@, b[j].0@));
        if i == 0 {
            lemma_lex_irreflexive(b[0].0@);
        } else {
            assert(lex_lt(a[0].0@, a[i].0@));
            lemma_lex_transitive(a[0].0@, b[0].0@, a[0].0@);
            lemma_lex_irreflexive(a[0].0@);
        }
    }
    assert(j == 0);
    let a1 = a.drop_first();
    let b1 = b.drop_first();
    assert forall|u: int| 0 <= u < a1.len() implies has_entry(b1, (#[trigger] a1[u]).0@, opt_view(a1[u].1)) by {
        assert(a1[u] == a[u + 1]);
        assert(has_entry(b, a[u + 1].0@, opt_view(a[u + 1].1)));
        let k = choose|k: int| 0 <= k < b.len() && #[trigger] b[k].0@ == a[u + 1].0@ && opt_view(b[k].1) == opt_view(a[u + 1].1);
        assert(lex_lt(a[0].0@, a[u + 1].0@));
        if k == 0 {
            lemma_lex_irreflexive(a[0].0@);
        }
        assert(b1[k - 1] == b[k]);
    }
    assert forall|u: int| 0 <= u < b1.len() implies has_entry(a1, (#[trigger] b1[u]).0@, opt_view(b1[u].1)) by {
        assert(b1[u] == b[u + 1]);
        assert(has_entry(a, b[u + 1].0@, opt_view(b[u + 1].1)));
        let k = choose|k: int| 0 <= k < a.len() && #[trigger] a[k].0@ == b[u + 1].0@ && opt_view(a[k].1) == opt_view(b[u + 1].1);
        assert(lex_lt(b[0].0@, b[u + 1].0@));
        if k == 0 {
            lemma_lex_irreflexive(b[0].0@);
        }
        assert(a1[k - 1] == a[k]);
    }
    assert forall|u: int, v: int| 0 <= u < v < a1.len() implies lex_lt(#[trigger] a1[u].0@, #[trigger] a1[v].0@) by {
        assert(a1[u] == a[u + 1] && a1[v] == a[v + 1]);
    }
    assert forall|u: int, v: int| 0 <= u < v < b1.len() implies lex_lt(#[trigger] b1[u].0@, #[trigger] b1[v].0@) by {
        assert(b1[u] == b[u + 1] && b1[v] == b[v + 1]);
    }
    lemma_sorted_unique_content(a1, b1);
    assert(attr_views(a) =~= seq![(a[0].0@, opt_view(a[0].1))] + attr_views(a1));
    assert(attr_views(b) =~= seq![(b[0].0@, opt_view(b[0].1))] + attr_views(b1));
}

/// Attributes put in key order do not depend on the order in which they
/// were set: two lists of attributes, each key standing once, that set the
/// same keys to the same values come out of `sorted_attributes` as the same
/// keys and values in the same order.
pub proof fn lemma_attribute_order_canonical(
    x: Seq<(String, Option<String>)>,
    y: Seq<(String, Option<String>)>,
    rx: Seq<(String, Option<String>)>,
    ry: Seq<(String, Option<String>)>,
)
    requires
        same_content(x, y),
        keys_sorted(rx),
        same_content(rx, x),
        keys_sorted(ry),
        same_content(ry, y),
    ensures
        attr_views(rx) == attr_views(ry),
{
    assert forall|i: int| 0 <= i < rx.len() implies has_entry(ry, (#[trigger] rx[i]).0@, opt_view(rx[i].1)) by {
        assert(has_entry(x, rx[i].0@, opt_view(rx[i].1)));
        let j = choose|j: int| 0 <= j < x.len() && #[trigger] x[j].0@ == rx[i].0@ && opt_view(x[j].1) == opt_view(rx[i].1);
        assert(has_entry(y, x[j].0@, opt_view(x[j].1)));
        let k = choose|k: int| 0 <= k < y.len() && #[trigger] y[k].0@ == x[j].0@ && opt_view(y[k].1) == opt_view(x[j].1);
        assert(has_entry(ry, y[k].0@, opt_view(y[k].1)));
    }
    assert forall|i: int| 0 <= i < ry.len() implies has_entry(rx, (#[trigger] ry[i]).0@, opt_view(ry[i].1)) by {
        assert(has_entry(y, ry[i].0@, opt_view(ry[i].1)));
        let j = choose|j: int| 0 <= j < y.len() && #[trigger] y[j].0@ == ry[i].0@ && opt_view(y[j].1) == opt_view(ry[i].1);
        assert(has_entry(x, y[j].0@, opt_view(y[j].1)));
        let k = choose|k: int| 0 <= k < x.len() && #[trigger] x[k].0@ == y[j].0@ && opt_view(x[k].1) == opt_view(y[j].1);
        assert(has_entry(rx, x[k].0@, opt_view(x[k].1)));
    }
    lemma_sorted_unique_content(rx, ry);
}

} // verus!
