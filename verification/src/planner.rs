//! The directory planner: decides which remote directories must be created
//! and reduces that set to its leaves, whose recursive creation covers the
//! whole set.
use vstd::prelude::*;
use vstd::relations::{sorted_by, total_ordering};
use vstd::seq_lib::lemma_sorted_unique;
use vstd::seq_lib::lemma_multiset_commutative;

use crate::paths::{path_components, spec_components};

verus! {

broadcast use vstd::seq_lib::group_to_multiset_ensures, vstd::multiset::group_multiset_axioms;

/// The views of a sequence of owned strings.
pub open spec fn views(ss: Seq<String>) -> Seq<Seq<char>> {
    ss.map_values(|s: String| s@)
}

/// Lexicographic order on character sequences, by code point; the order in
/// which the to-create set is arranged before leaf reduction.
pub open spec fn lex_le(a: Seq<char>, b: Seq<char>) -> bool
    decreases a.len(),
{
    if a.len() == 0 {
        true
    } else if b.len() == 0 {
        false
    } else if (a.first() as u32) < (b.first() as u32) {
        true
    } else if (a.first() as u32) > (b.first() as u32) {
        false
    } else {
        lex_le(a.drop_first(), b.drop_first())
    }
}

/// The lexicographic order as a relation value, for `sorted_by`.
pub open spec fn lex_leq() -> spec_fn(Seq<char>, Seq<char>) -> bool {
    |a: Seq<char>, b: Seq<char>| lex_le(a, b)
}

proof fn lemma_lex_le_refl(a: Seq<char>)
    ensures
        lex_le(a, a),
    decreases a.len(),
{
    if a.len() > 0 {
        lemma_lex_le_refl(a.drop_first());
    }
}

proof fn lemma_lex_le_total(a: Seq<char>, b: Seq<char>)
    ensures
        lex_le(a, b) || lex_le(b, a),
    decreases a.len(),
{
    if a.len() > 0 && b.len() > 0 {
        lemma_lex_le_total(a.drop_first(), b.drop_first());
    }
}

proof fn lemma_char_inj(a: char, b: char)
    requires
        a as u32 == b as u32,
    ensures
        a == b,
{
}

proof fn lemma_lex_le_antisymmetric(a: Seq<char>, b: Seq<char>)
    requires
        lex_le(a, b),
        lex_le(b, a),
    ensures
        a == b,
    decreases a.len(),
{
    if a.len() == 0 {
        assert(b.len() == 0);
        assert(a =~= b);
    } else {
        assert(b.len() > 0);
        assert((a.first() as u32) == (b.first() as u32));
        lemma_char_inj(a.first(), b.first());
        lemma_lex_le_antisymmetric(a.drop_first(), b.drop_first());
        assert(a.len() == b.len());
        assert forall|k: int| 0 <= k < a.len() implies a[k] == b[k] by {
            if k == 0 {
            } else {
                assert(a.drop_first()[k - 1] == b.drop_first()[k - 1]);
            }
        }
        assert(a =~= b);
    }
}

proof fn lemma_lex_le_transitive(a: Seq<char>, b: Seq<char>, c: Seq<char>)
    requires
        lex_le(a, b),
        lex_le(b, c),
    ensures
        lex_le(a, c),
    decreases a.len(),
{
    if a.len() > 0 && b.len() > 0 && c.len() > 0 {
        if (a.first() as u32) == (b.first() as u32) && (b.first() as u32) == (c.first() as u32) {
            lemma_lex_le_transitive(a.drop_first(), b.drop_first(), c.drop_first());
        }
    }
}

/// The lexicographic order is a total ordering.
pub proof fn lemma_lex_total_ordering()
    ensures
        total_ordering(lex_leq()),
{
    let r = lex_leq();
    assert forall|a: Seq<char>| #[trigger] r(a, a) by {
        lemma_lex_le_refl(a);
    }
    assert forall|a: Seq<char>, b: Seq<char>| #[trigger] r(a, b) && #[trigger] r(b, a) implies a
        == b by {
        lemma_lex_le_antisymmetric(a, b);
    }
    assert forall|a: Seq<char>, b: Seq<char>, c: Seq<char>|
        #[trigger] r(a, b) && #[trigger] r(b, c) implies r(a, c) by {
        lemma_lex_le_transitive(a, b, c);
    }
    assert forall|a: Seq<char>, b: Seq<char>| #[trigger] r(a, b) || #[trigger] r(b, a) by {
        lemma_lex_le_total(a, b);
    }
}

proof fn lemma_lex_le_skip(a: Seq<char>, b: Seq<char>, i: int)
    requires
        0 <= i <= a.len(),
        i <= b.len(),
        forall|j: int| 0 <= j < i ==> a[j] == b[j],
    ensures
        lex_le(a, b) == lex_le(a.skip(i), b.skip(i)),
    decreases i,
{
    if i == 0 {
        assert(a.skip(0) =~= a);
        assert(b.skip(0) =~= b);
    } else {
        assert(a.first() == b.first());
        assert(a.drop_first() =~= a.skip(1));
        assert(b.drop_first() =~= b.skip(1));
        lemma_lex_le_skip(a.skip(1), b.skip(1), i - 1);
        assert(a.skip(1).skip(i - 1) =~= a.skip(i));
        assert(b.skip(1).skip(i - 1) =~= b.skip(i));
    }
}

/// Compares two strings in the lexicographic order.
fn str_lex_le(a: &str, b: &str) -> (r: bool)
    ensures
        r == lex_le(a@, b@),
{
    let na = a.unicode_len();
    let nb = b.unicode_len();
    let mut i: usize = 0;
    loop
        invariant
            0 <= i <= na,
            i <= nb,
            na == a@.len(),
            nb == b@.len(),
            forall|j: int| 0 <= j < i ==> a@[j] == b@[j],
        decreases na - i,
    {
        proof {
            lemma_lex_le_skip(a@, b@, i as int);
        }
        if i == na {
            return true;
        }
        if i == nb {
            return false;
        }
        let ca = a.get_char(i) as u32;
        let cb = b.get_char(i) as u32;
        if ca < cb {
            return true;
        }
        if ca > cb {
            return false;
        }
        i += 1;
    }
}

pub proof fn lemma_views_index(s: Seq<String>, i: int)
    requires
        0 <= i < s.len(),
    ensures
        views(s)[i] == s[i]@,
{
}

pub proof fn lemma_views_push(s: Seq<String>, x: String)
    ensures
        views(s.push(x)) == views(s).push(x@),
{
    assert(views(s.push(x)) =~= views(s).push(x@)) by {
        assert forall|k: int| 0 <= k < s.len() + 1 implies views(s.push(x))[k] == views(s).push(
            x@,
        )[k] by {
            if k < s.len() {
                assert(s.push(x)[k] == s[k]);
            } else {
                assert(s.push(x)[k] == x);
            }
        }
    }
}

proof fn lemma_to_multiset_insert<A>(s: Seq<A>, p: int, x: A)
    requires
        0 <= p <= s.len(),
    ensures
        s.insert(p, x).to_multiset() == s.to_multiset().insert(x),
{
    let u = s.insert(p, x);
    s.insert_ensures(p, x);
    u.remove_ensures(p);
    assert(u.remove(p) =~= s);
    assert(u[p] == x);
    assert(u.contains(x));
    assert(u.to_multiset().count(x) > 0);
    assert(u.remove(p).to_multiset() =~= u.to_multiset().remove(u[p]));
    assert forall|y: A| u.to_multiset().count(y) == s.to_multiset().insert(x).count(y) by {
        assert(s.to_multiset().count(y) == u.to_multiset().remove(x).count(y));
    }
    assert(u.to_multiset() =~= s.to_multiset().insert(x));
}

/// Inserts one string into its place in a sorted list.
fn insert_sorted(out: &mut Vec<String>, x: String)
    requires
        sorted_by(views(old(out)@), lex_leq()),
    ensures
        sorted_by(views(final(out)@), lex_leq()),
        views(final(out)@).to_multiset() == views(old(out)@).to_multiset().insert(x@),
{
    let mut pos: usize = 0;
    while pos < out.len() && str_lex_le(out[pos].as_str(), x.as_str())
        invariant
            0 <= pos <= out@.len(),
            out@ == old(out)@,
            forall|j: int| 0 <= j < pos ==> lex_le(#[trigger] views(out@)[j], x@),
        decreases out@.len() - pos,
    {
        proof {
            lemma_views_index(out@, pos as int);
        }
        pos += 1;
    }
    let ghost ovs = views(old(out)@);
    proof {
        if pos < out@.len() {
            lemma_views_index(out@, pos as int);
            assert(!lex_le(ovs[pos as int], x@));
            lemma_lex_le_total(ovs[pos as int], x@);
            assert(lex_le(x@, ovs[pos as int]));
        }
    }
    out.insert(pos, x);
    proof {
        let nvs = views(out@);
        let p = pos as int;
        ovs.insert_ensures(p, x@);
        assert(nvs =~= ovs.insert(p, x@)) by {
            assert forall|i: int| 0 <= i < nvs.len() implies nvs[i] == ovs.insert(p, x@)[i] by {
                if i < p {
                    assert(out@[i] == old(out)@[i]);
                } else if i == p {
                } else {
                    assert(out@[i] == old(out)@[i - 1]);
                }
            }
        }
        assert(sorted_by(nvs, lex_leq())) by {
            assert forall|i: int, j: int| 0 <= i < j < nvs.len() implies #[trigger] lex_leq()(
                nvs[i],
                nvs[j],
            ) by {
                if j < p {
                    assert(lex_leq()(ovs[i], ovs[j]));
                } else if i < p && j == p {
                    assert(lex_le(ovs[i], x@));
                } else if i < p && j > p {
                    assert(lex_leq()(ovs[i], ovs[j - 1]));
                } else if i == p {
                    assert(p < j < nvs.len());
                    assert(lex_le(x@, ovs[p]));
                    if j - 1 == p {
                        assert(lex_le(x@, ovs[j - 1]));
                    } else {
                        assert(lex_leq()(ovs[p], ovs[j - 1]));
                        lemma_lex_le_transitive(x@, ovs[p], ovs[j - 1]);
                    }
                } else {
                    assert(lex_leq()(ovs[i - 1], ovs[j - 1]));
                }
            }
        }
        lemma_to_multiset_insert(ovs, p, x@);
    }
}

/// Sorts the list in the lexicographic order, keeping every entry.
fn sort_folders(folders: &Vec<String>) -> (r: Vec<String>)
    ensures
        sorted_by(views(r@), lex_leq()),
        views(r@).to_multiset() == views(folders@).to_multiset(),
{
    let ghost dvs = views(folders@);
    let mut out: Vec<String> = Vec::new();
    let mut i: usize = 0;
    proof {
        assert(views(out@) =~= Seq::<Seq<char>>::empty());
        assert(dvs.take(0) =~= Seq::<Seq<char>>::empty());
    }
    while i < folders.len()
        invariant
            0 <= i <= folders@.len(),
            dvs == views(folders@),
            dvs.len() == folders@.len(),
            sorted_by(views(out@), lex_leq()),
            views(out@).to_multiset() == dvs.take(i as int).to_multiset(),
        decreases folders@.len() - i,
    {
        let x = folders[i].clone();
        proof {
            lemma_views_index(folders@, i as int);
            assert(dvs.take(i + 1).drop_last() =~= dvs.take(i as int));
            assert(dvs.take(i + 1) =~= dvs.take(i as int).push(dvs[i as int]));
        }
        insert_sorted(&mut out, x);
        i += 1;
    }
    proof {
        assert(dvs.take(folders@.len() as int) =~= dvs);
    }
    out
}

/// `a` names a proper ancestor of `b`: `b`'s component sequence extends
/// `a`'s by at least one component. The comparison goes by path components,
/// never by raw characters, so a sibling whose name merely starts with the
/// same letters does not count as lying under `a`.
pub open spec fn is_proper_ancestor(a: Seq<char>, b: Seq<char>) -> bool {
    spec_components(a).len() < spec_components(b).len() && spec_components(a).is_prefix_of(
        spec_components(b),
    )
}

/// `c` is a leaf of the set `ds`: no member of `ds` lies properly below
/// it, so creating the deeper members covers nothing that `c` would add.
pub open spec fn is_leaf_in(c: Seq<char>, ds: Seq<Seq<char>>) -> bool {
    forall|e: Seq<char>| #[trigger] ds.contains(e) ==> !is_proper_ancestor(c, e)
}

/// The leaf test of a fixed set, as a predicate value for `filter`.
pub open spec fn leaf_pred(ds: Seq<Seq<char>>) -> spec_fn(Seq<char>) -> bool {
    |c: Seq<char>| is_leaf_in(c, ds)
}

/// Decides whether `a` names a proper ancestor of `b`.
fn proper_ancestor_of(a: &str, b: &str) -> (r: bool)
    ensures
        r == is_proper_ancestor(a@, b@),
{
    let ca = path_components(a);
    let cb = path_components(b);
    let ghost avs = views(ca@);
    let ghost bvs = views(cb@);
    if ca.len() >= cb.len() {
        return false;
    }
    let mut j: usize = 0;
    while j < ca.len()
        invariant
            0 <= j <= ca@.len(),
            ca@.len() < cb@.len(),
            avs == views(ca@),
            bvs == views(cb@),
            avs == spec_components(a@),
            bvs == spec_components(b@),
            avs.len() == ca@.len(),
            bvs.len() == cb@.len(),
            forall|k: int| 0 <= k < j ==> avs[k] == bvs[k],
        decreases ca@.len() - j,
    {
        proof {
            lemma_views_index(ca@, j as int);
            lemma_views_index(cb@, j as int);
        }
        if !(ca[j] == cb[j]) {
            proof {
                assert(avs[j as int] != bvs[j as int]);
                assert(!avs.is_prefix_of(bvs)) by {
                    if avs.is_prefix_of(bvs) {
                        assert(avs[j as int] == bvs.subrange(0, avs.len() as int)[j as int]);
                    }
                }
            }
            return false;
        }
        j += 1;
    }
    proof {
        assert(avs =~= bvs.subrange(0, avs.len() as int));
    }
    true
}

proof fn lemma_multiset_same_contains<A>(a: Seq<A>, b: Seq<A>)
    requires
        a.to_multiset() == b.to_multiset(),
    ensures
        forall|c: A| a.contains(c) <==> #[trigger] b.contains(c),
{
    assert forall|c: A| a.contains(c) <==> #[trigger] b.contains(c) by {
        assert(a.contains(c) <==> a.to_multiset().count(c) > 0);
        assert(b.contains(c) <==> b.to_multiset().count(c) > 0);
    }
}

proof fn lemma_filter_subset<A>(s: Seq<A>, p: spec_fn(A) -> bool)
    ensures
        forall|c: A| #[trigger] s.filter(p).contains(c) ==> s.contains(c),
    decreases s.len(),
{
    reveal(Seq::filter);
    if s.len() > 0 {
        lemma_filter_subset(s.drop_last(), p);
        assert forall|c: A| #[trigger] s.filter(p).contains(c) implies s.contains(c) by {
            if s.drop_last().filter(p).contains(c) {
                assert(s.drop_last().contains(c));
                let k = choose|k: int| 0 <= k < s.drop_last().len() && s.drop_last()[k] == c;
                assert(s[k] == c);
            } else {
                assert(c == s.last());
                assert(s[s.len() - 1] == c);
            }
        }
    }
}

proof fn lemma_filter_sorted(s: Seq<Seq<char>>, p: spec_fn(Seq<char>) -> bool)
    requires
        sorted_by(s, lex_leq()),
    ensures
        sorted_by(s.filter(p), lex_leq()),
    decreases s.len(),
{
    reveal(Seq::filter);
    if s.len() > 0 {
        let dl = s.drop_last();
        assert(sorted_by(dl, lex_leq())) by {
            assert forall|i: int, j: int| 0 <= i < j < dl.len() implies #[trigger] lex_leq()(
                dl[i],
                dl[j],
            ) by {
                assert(lex_leq()(s[i], s[j]));
            }
        }
        lemma_filter_sorted(dl, p);
        if p(s.last()) {
            let f = dl.filter(p).push(s.last());
            assert(sorted_by(f, lex_leq())) by {
                lemma_filter_subset(dl, p);
                assert forall|i: int, j: int| 0 <= i < j < f.len() implies #[trigger] lex_leq()(
                    f[i],
                    f[j],
                ) by {
                    if j < f.len() - 1 {
                        assert(lex_leq()(dl.filter(p)[i], dl.filter(p)[j]));
                    } else {
                        assert(dl.filter(p).contains(dl.filter(p)[i]));
                        assert(dl.contains(dl.filter(p)[i]));
                        let k = choose|k: int| 0 <= k < dl.len() && dl[k] == f[i];
                        assert(lex_leq()(s[k], s[s.len() - 1]));
                    }
                }
            }
        }
    }
}

/// Reduces a to-create set to its leaves: the paths of which no other
/// member is a proper extension. Creating each leaf with recursive
/// intermediate-directory semantics realizes every member of the set. The
/// result is the set arranged in the lexicographic order, with every
/// non-leaf dropped.
pub fn get_leaf_folders(folders_to_create: &Vec<String>) -> (r: Vec<String>)
    ensures
        views(r@) == views(folders_to_create@).sort_by(lex_leq()).filter(
            leaf_pred(views(folders_to_create@)),
        ),
        sorted_by(views(r@), lex_leq()),
        forall|c: Seq<char>| #[trigger] views(r@).contains(c) <==> (views(
            folders_to_create@,
        ).contains(c) && is_leaf_in(c, views(folders_to_create@))),
{
    let ghost dvs = views(folders_to_create@);
    let sorted = sort_folders(folders_to_create);
    let ghost svs = views(sorted@);
    proof {
        lemma_multiset_same_contains(svs, dvs);
    }
    let mut out: Vec<String> = Vec::new();
    let mut i: usize = 0;
    proof {
        reveal(Seq::filter);
        assert(views(out@) =~= Seq::<Seq<char>>::empty());
        assert(svs.take(0).filter(leaf_pred(dvs)) =~= Seq::<Seq<char>>::empty());
    }
    while i < sorted.len()
        invariant
            0 <= i <= sorted@.len(),
            dvs == views(folders_to_create@),
            svs == views(sorted@),
            svs.len() == sorted@.len(),
            forall|c: Seq<char>| svs.contains(c) <==> #[trigger] dvs.contains(c),
            views(out@) == svs.take(i as int).filter(leaf_pred(dvs)),
        decreases sorted@.len() - i,
    {
        let ghost ci = svs[i as int];
        proof {
            lemma_views_index(sorted@, i as int);
        }
        let mut leaf = true;
        let mut j: usize = 0;
        while j < sorted.len()
            invariant
                0 <= j <= sorted@.len(),
                svs == views(sorted@),
                svs.len() == sorted@.len(),
                0 <= i < sorted@.len(),
                ci == svs[i as int],
                ci == sorted@[i as int]@,
                leaf == (forall|k: int| 0 <= k < j ==> !is_proper_ancestor(ci, #[trigger] svs[k])),
            decreases sorted@.len() - j,
        {
            proof {
                lemma_views_index(sorted@, j as int);
            }
            if proper_ancestor_of(sorted[i].as_str(), sorted[j].as_str()) {
                leaf = false;
            }
            j += 1;
        }
        proof {
            assert(leaf == is_leaf_in(ci, dvs)) by {
                if leaf {
                    assert forall|e: Seq<char>| #[trigger] dvs.contains(e) implies !is_proper_ancestor(
                        ci,
                        e,
                    ) by {
                        assert(svs.contains(e));
                        let k = choose|k: int| 0 <= k < svs.len() && svs[k] == e;
                        assert(!is_proper_ancestor(ci, svs[k]));
                    }
                } else {
                    let k = choose|k: int| 0 <= k < svs.len() && is_proper_ancestor(ci, svs[k]);
                    assert(svs.contains(svs[k]));
                    assert(dvs.contains(svs[k]));
                }
            }
            let pre = svs.take(i as int);
            let post = svs.take(i + 1);
            assert(post =~= pre + seq![ci]);
            Seq::filter_distributes_over_add(pre, seq![ci], leaf_pred(dvs));
            reveal_with_fuel(Seq::filter, 2);
            assert(seq![ci].drop_last() =~= Seq::<Seq<char>>::empty());
            if leaf_pred(dvs)(ci) {
                assert(seq![ci].filter(leaf_pred(dvs)) =~= seq![ci]);
            } else {
                assert(seq![ci].filter(leaf_pred(dvs)) =~= Seq::<Seq<char>>::empty());
            }
        }
        if leaf {
            let x = sorted[i].clone();
            proof {
                assert(x@ == ci);
                lemma_views_push(out@, x);
                assert(views(out@).push(ci) =~= views(out@) + seq![ci]);
                assert(views(out@) + seq![ci] =~= svs.take(i + 1).filter(leaf_pred(dvs)));
            }
            out.push(x);
        } else {
            proof {
                assert(views(out@) =~= svs.take(i + 1).filter(leaf_pred(dvs)));
            }
        }
        i += 1;
    }
    proof {
        assert(svs.take(svs.len() as int) =~= svs);
        assert(views(out@) == svs.filter(leaf_pred(dvs)));
        // The sorted list is the unique sorted arrangement of the input.
        lemma_lex_total_ordering();
        dvs.lemma_sort_by_ensures(lex_leq());
        lemma_sorted_unique(svs, dvs.sort_by(lex_leq()), lex_leq());
        assert(svs == dvs.sort_by(lex_leq()));
        // Membership characterization.
        lemma_filter_subset(svs, leaf_pred(dvs));
        svs.filter_lemma(leaf_pred(dvs));
        assert forall|c: Seq<char>| #[trigger] views(out@).contains(c) implies (dvs.contains(c)
            && is_leaf_in(c, dvs)) by {
            assert(svs.filter(leaf_pred(dvs)).contains(c));
            assert(svs.contains(c));
            let k = choose|k: int|
                0 <= k < svs.filter(leaf_pred(dvs)).len() && svs.filter(leaf_pred(dvs))[k] == c;
            assert(leaf_pred(dvs)(svs.filter(leaf_pred(dvs))[k]));
        }
        assert forall|c: Seq<char>| dvs.contains(c) && is_leaf_in(c, dvs) implies #[trigger] views(
            out@,
        ).contains(c) by {
            assert(svs.contains(c));
            let k = choose|k: int| 0 <= k < svs.len() && svs[k] == c;
            assert(leaf_pred(dvs)(svs[k]));
            assert(svs.filter(leaf_pred(dvs)).contains(svs[k]));
        }
        lemma_filter_sorted(svs, leaf_pred(dvs));
    }
    out
}

/// The greatest component count among the members of a set of paths.
pub open spec fn max_depth(ds: Seq<Seq<char>>) -> int
    decreases ds.len(),
{
    if ds.len() == 0 {
        0
    } else {
        let m = max_depth(ds.drop_last());
        if spec_components(ds.last()).len() > m {
            spec_components(ds.last()).len() as int
        } else {
            m
        }
    }
}

proof fn lemma_max_depth_ge(ds: Seq<Seq<char>>, i: int)
    requires
        0 <= i < ds.len(),
    ensures
        spec_components(ds[i]).len() <= max_depth(ds),
    decreases ds.len(),
{
    if i < ds.len() - 1 {
        lemma_max_depth_ge(ds.drop_last(), i);
    }
}

proof fn lemma_prefix_transitive<A>(a: Seq<A>, b: Seq<A>, c: Seq<A>)
    requires
        a.is_prefix_of(b),
        b.is_prefix_of(c),
    ensures
        a.is_prefix_of(c),
{
    assert(a =~= c.subrange(0, a.len() as int)) by {
        assert forall|k: int| 0 <= k < a.len() implies a[k] == c[k] by {
            assert(a[k] == b.subrange(0, a.len() as int)[k]);
            assert(b[k] == c.subrange(0, b.len() as int)[k]);
        }
    }
}

/// Every member of a set of paths lies on the way to some leaf of the set:
/// the member's components are a (possibly improper) prefix of the leaf's,
/// so creating the leaf with recursive intermediate-directory semantics
/// realizes the member too.
pub proof fn lemma_leaf_cover(ds: Seq<Seq<char>>, d: Seq<char>)
    requires
        ds.contains(d),
    ensures
        exists|l: Seq<char>| #[trigger] ds.contains(l) && is_leaf_in(l, ds) && spec_components(
            d,
        ).is_prefix_of(spec_components(l)),
    decreases max_depth(ds) - spec_components(d).len(),
{
    let di = choose|k: int| 0 <= k < ds.len() && ds[k] == d;
    lemma_max_depth_ge(ds, di);
    if is_leaf_in(d, ds) {
        assert(spec_components(d).is_prefix_of(spec_components(d))) by {
            assert(spec_components(d) =~= spec_components(d).subrange(
                0,
                spec_components(d).len() as int,
            ));
        }
        assert(ds.contains(d) && is_leaf_in(d, ds) && spec_components(d).is_prefix_of(
            spec_components(d),
        ));
    } else {
        let e = choose|e: Seq<char>| #[trigger] ds.contains(e) && is_proper_ancestor(d, e);
        let ei = choose|k: int| 0 <= k < ds.len() && ds[k] == e;
        lemma_max_depth_ge(ds, ei);
        lemma_leaf_cover(ds, e);
        let l = choose|l: Seq<char>|
            #[trigger] ds.contains(l) && is_leaf_in(l, ds) && spec_components(e).is_prefix_of(
                spec_components(l),
            );
        lemma_prefix_transitive(spec_components(d), spec_components(e), spec_components(l));
        assert(ds.contains(l) && is_leaf_in(l, ds) && spec_components(d).is_prefix_of(
            spec_components(l),
        ));
    }
}

/// The leaf reduction is sound and minimal: a leaf set characterized as
/// `get_leaf_folders` produces it covers every member of the unreduced set
/// (each member's components are a prefix of some leaf's components), and
/// no leaf is a proper ancestor of another leaf.
pub proof fn lemma_leaf_reduction_covers(ds: Seq<Seq<char>>, ls: Seq<Seq<char>>)
    requires
        forall|c: Seq<char>| #[trigger] ls.contains(c) <==> (ds.contains(c) && is_leaf_in(c, ds)),
    ensures
        forall|d: Seq<char>| #[trigger] ds.contains(d) ==> exists|l: Seq<char>|
            #[trigger] ls.contains(l) && spec_components(d).is_prefix_of(spec_components(l)),
        forall|l1: Seq<char>, l2: Seq<char>|
            #[trigger] ls.contains(l1) && #[trigger] ls.contains(l2) ==> !is_proper_ancestor(
                l1,
                l2,
            ),
{
    assert forall|d: Seq<char>| #[trigger] ds.contains(d) implies exists|l: Seq<char>|
        #[trigger] ls.contains(l) && spec_components(d).is_prefix_of(spec_components(l)) by {
        lemma_leaf_cover(ds, d);
        let l = choose|l: Seq<char>|
            #[trigger] ds.contains(l) && is_leaf_in(l, ds) && spec_components(d).is_prefix_of(
                spec_components(l),
            );
        assert(ls.contains(l) && spec_components(d).is_prefix_of(spec_components(l)));
    }
    assert forall|l1: Seq<char>, l2: Seq<char>|
        #[trigger] ls.contains(l1) && #[trigger] ls.contains(l2) implies !is_proper_ancestor(
        l1,
        l2,
    ) by {
        assert(ds.contains(l2));
        assert(is_leaf_in(l1, ds));
    }
}

/// The outcome of probing the remote side for a directory's existence.
#[derive(Debug, Clone, Copy, PartialEq, Eq, Structural)]
pub enum DirProbe {
    /// The probe succeeded and the directory exists.
    Present,
    /// The probe succeeded and the directory is absent.
    Absent,
    /// The probe itself failed.
    Failed,
}

/// Whether a probe outcome calls for creating the directory: anything but
/// a positive sighting does. Treating a failed probe as absence is the
/// fail-open policy: a transient fault must not prevent creation from
/// being attempted.
pub open spec fn needs_creation(p: DirProbe) -> bool {
    !(p is Present)
}

/// The directories whose probe outcome calls for creation, in order.
pub open spec fn missing_of(folders: Seq<Seq<char>>, probes: Seq<DirProbe>) -> Seq<Seq<char>>
    recommends
        folders.len() == probes.len(),
    decreases folders.len(),
{
    if folders.len() == 0 {
        Seq::empty()
    } else {
        let rest = missing_of(folders.drop_last(), probes.drop_last());
        if needs_creation(probes.last()) {
            rest.push(folders.last())
        } else {
            rest
        }
    }
}

/// The full to-create set of a run: with the destination root reported
/// absent, the root itself followed by every discovered directory (nothing
/// under an absent root can exist, so no directory is probed); with the
/// root present, exactly the directories whose own probe calls for
/// creation.
pub open spec fn spec_create_list(
    destination: Seq<char>,
    folders: Seq<Seq<char>>,
    root_present: bool,
    probes: Seq<DirProbe>,
) -> Seq<Seq<char>> {
    if root_present {
        missing_of(folders, probes)
    } else {
        seq![destination] + folders
    }
}

/// Accumulates the to-create set and the root-missing flag from the probe
/// outcomes the caller gathered.
pub fn build_create_list(
    destination: &String,
    folders: &Vec<String>,
    root_probe: DirProbe,
    folder_probes: &Vec<DirProbe>,
) -> (r: (Vec<String>, bool))
    requires
        root_probe is Present ==> folder_probes@.len() == folders@.len(),
    ensures
        r.1 == !(root_probe is Present),
        views(r.0@) == spec_create_list(
            destination@,
            views(folders@),
            root_probe is Present,
            folder_probes@,
        ),
        !(root_probe is Present) ==> views(r.0@) == seq![destination@] + views(folders@),
{
    let ghost dvs = views(folders@);
    let mut out: Vec<String> = Vec::new();
    if !matches!(root_probe, DirProbe::Present) {
        out.push(destination.clone());
        proof {
            assert(views(out@) =~= seq![destination@]);
            assert(seq![destination@] + dvs.take(0) =~= views(out@));
        }
        let mut i: usize = 0;
        while i < folders.len()
            invariant
                0 <= i <= folders@.len(),
                dvs == views(folders@),
                dvs.len() == folders@.len(),
                views(out@) == seq![destination@] + dvs.take(i as int),
            decreases folders@.len() - i,
        {
            let x = folders[i].clone();
            proof {
                lemma_views_index(folders@, i as int);
                assert(x@ == dvs[i as int]);
                lemma_views_push(out@, x);
                assert((seq![destination@] + dvs.take(i as int)).push(dvs[i as int]) =~= seq![
                    destination@,
                ] + dvs.take(i + 1));
            }
            out.push(x);
            i += 1;
        }
        proof {
            assert(dvs.take(folders@.len() as int) =~= dvs);
        }
        (out, true)
    } else {
        proof {
            assert(views(out@) =~= Seq::<Seq<char>>::empty());
            assert(missing_of(dvs.take(0), folder_probes@.take(0)) =~= Seq::<Seq<char>>::empty());
        }
        let mut i: usize = 0;
        while i < folders.len()
            invariant
                0 <= i <= folders@.len(),
                dvs == views(folders@),
                dvs.len() == folders@.len(),
                folder_probes@.len() == folders@.len(),
                views(out@) == missing_of(dvs.take(i as int), folder_probes@.take(i as int)),
            decreases folders@.len() - i,
        {
            let p = folder_probes[i];
            proof {
                lemma_views_index(folders@, i as int);
                let fpre = dvs.take(i as int);
                let fpost = dvs.take(i + 1);
                let ppre = folder_probes@.take(i as int);
                let ppost = folder_probes@.take(i + 1);
                assert(fpost.drop_last() =~= fpre);
                assert(ppost.drop_last() =~= ppre);
                assert(fpost.last() == dvs[i as int]);
                assert(ppost.last() == folder_probes@[i as int]);
                assert(missing_of(fpost, ppost) == if needs_creation(ppost.last()) {
                    missing_of(fpre, ppre).push(fpost.last())
                } else {
                    missing_of(fpre, ppre)
                });
            }
            if !matches!(p, DirProbe::Present) {
                let x = folders[i].clone();
                proof {
                    assert(x@ == dvs[i as int]);
                    lemma_views_push(out@, x);
                }
                out.push(x);
            }
            i += 1;
        }
        proof {
            assert(dvs.take(folders@.len() as int) =~= dvs);
            assert(folder_probes@.take(folders@.len() as int) =~= folder_probes@);
        }
        (out, false)
    }
}

/// The computed plan of a run: the minimal directories to create, and
/// whether the destination root itself was absent.
pub struct TransferPlan {
    /// The leaves of the to-create set, in the lexicographic order.
    pub leaf_directories: Vec<String>,
    /// Whether the destination root was reported absent; when it was,
    /// per-file probing is redundant and every file is transferred.
    pub root_is_missing: bool,
}

/// Builds the whole transfer plan from the probe outcomes: accumulates the
/// to-create set and reduces it to its leaves.
pub fn make_plan(
    destination: &String,
    folders: &Vec<String>,
    root_probe: DirProbe,
    folder_probes: &Vec<DirProbe>,
) -> (r: TransferPlan)
    requires
        root_probe is Present ==> folder_probes@.len() == folders@.len(),
    ensures
        r.root_is_missing == !(root_probe is Present),
        ({
            let created = spec_create_list(
                destination@,
                views(folders@),
                root_probe is Present,
                folder_probes@,
            );
            &&& sorted_by(views(r.leaf_directories@), lex_leq())
            &&& forall|c: Seq<char>| #[trigger] views(r.leaf_directories@).contains(c) <==> (
            created.contains(c) && is_leaf_in(c, created))
        }),
{
    let (to_create, root_is_missing) = build_create_list(
        destination,
        folders,
        root_probe,
        folder_probes,
    );
    let leaf_directories = get_leaf_folders(&to_create);
    TransferPlan { leaf_directories, root_is_missing }
}

} // verus!
