//! The overlap matcher: a linear merge of two name-sorted record
//! sequences into the left-only, paired and right-only partitions, and
//! the name-ordered sort that feeds it.
use crate::benchmark::{Benchmark, BenchmarkView};
use crate::text::{lemma_lex_le_antisym, lemma_lex_le_total, lemma_lex_le_trans, lex_le, str_le};
use vstd::prelude::*;
use vstd::multiset::Multiset;

verus! {

/// The records' names are in ascending lexicographic order.
pub open spec fn sorted_names(s: Seq<BenchmarkView>) -> bool {
    forall|i: int, j: int| 0 <= i < j < s.len() ==> lex_le(s[i].name, s[j].name)
}

/// The left components of a sequence of pairs.
pub open spec fn firsts(ps: Seq<(BenchmarkView, BenchmarkView)>) -> Seq<BenchmarkView> {
    ps.map_values(|p: (BenchmarkView, BenchmarkView)| p.0)
}

/// The right components of a sequence of pairs.
pub open spec fn seconds(ps: Seq<(BenchmarkView, BenchmarkView)>) -> Seq<BenchmarkView> {
    ps.map_values(|p: (BenchmarkView, BenchmarkView)| p.1)
}

/// The three-way partition of two sequences by a linear merge on names:
/// records whose names are equal pair up, a strictly smaller name falls
/// to its own side's unpaired partition, and all three outputs keep the
/// order of the inputs.
pub open spec fn overlap_spec(l: Seq<BenchmarkView>, r: Seq<BenchmarkView>) -> (
    Seq<BenchmarkView>,
    Seq<(BenchmarkView, BenchmarkView)>,
    Seq<BenchmarkView>,
)
    decreases l.len() + r.len(),
{
    if l.len() == 0 {
        (Seq::empty(), Seq::empty(), r)
    } else if r.len() == 0 {
        (l, Seq::empty(), Seq::empty())
    } else if l[0].name == r[0].name {
        let rec = overlap_spec(l.drop_first(), r.drop_first());
        (rec.0, seq![(l[0], r[0])] + rec.1, rec.2)
    } else if lex_le(l[0].name, r[0].name) {
        let rec = overlap_spec(l.drop_first(), r);
        (seq![l[0]] + rec.0, rec.1, rec.2)
    } else {
        let rec = overlap_spec(l, r.drop_first());
        (rec.0, rec.1, seq![r[0]] + rec.2)
    }
}

/// Every pair the merge emits joins two records with the same name.
pub proof fn lemma_overlap_pairs_equal(l: Seq<BenchmarkView>, r: Seq<BenchmarkView>)
    ensures
        forall|i: int|
            0 <= i < overlap_spec(l, r).1.len() ==> (#[trigger] overlap_spec(l, r).1[i]).0.name
                == overlap_spec(l, r).1[i].1.name,
    decreases l.len() + r.len(),
{
    let ov = overlap_spec(l, r);
    if l.len() == 0 || r.len() == 0 {
    } else if l[0].name == r[0].name {
        lemma_overlap_pairs_equal(l.drop_first(), r.drop_first());
        let rec = overlap_spec(l.drop_first(), r.drop_first());
        assert forall|i: int| 0 <= i < ov.1.len() implies (#[trigger] ov.1[i]).0.name
            == ov.1[i].1.name by {
            if i > 0 {
                assert(ov.1[i] == rec.1[i - 1]);
            }
        }
    } else if lex_le(l[0].name, r[0].name) {
        lemma_overlap_pairs_equal(l.drop_first(), r);
    } else {
        lemma_overlap_pairs_equal(l, r.drop_first());
    }
}

/// Concatenation turns into multiset addition.
pub proof fn lemma_to_multiset_add<A>(a: Seq<A>, b: Seq<A>)
    ensures
        (a + b).to_multiset() == a.to_multiset().add(b.to_multiset()),
    decreases b.len(),
{
    broadcast use vstd::seq_lib::group_to_multiset_ensures;
    broadcast use vstd::multiset::group_multiset_axioms;

    if b.len() == 0 {
        assert(a + b =~= a);
        assert(b.to_multiset() =~= Multiset::<A>::empty()) by {
            assert forall|x: A| b.to_multiset().count(x) == 0 by {
                assert(!b.contains(x));
            }
        }
        assert(a.to_multiset().add(b.to_multiset()) =~= a.to_multiset());
    } else {
        let b0 = b.drop_last();
        let x = b.last();
        lemma_to_multiset_add(a, b0);
        assert(a + b =~= (a + b0).push(x));
        assert(b =~= b0.push(x));
        assert((a + b).to_multiset() =~= (a + b0).to_multiset().insert(x));
        assert(b.to_multiset() =~= b0.to_multiset().insert(x));
        assert(a.to_multiset().add(b0.to_multiset().insert(x)) =~= (a.to_multiset().add(
            b0.to_multiset(),
        )).insert(x));
    }
}

/// Overlap totality: the left-only partition together with the left
/// components of the pairs is, as a multiset, exactly the left input;
/// and symmetrically for the right.
pub proof fn lemma_overlap_totality(l: Seq<BenchmarkView>, r: Seq<BenchmarkView>)
    ensures
        (overlap_spec(l, r).0 + firsts(overlap_spec(l, r).1)).to_multiset() == l.to_multiset(),
        (overlap_spec(l, r).2 + seconds(overlap_spec(l, r).1)).to_multiset() == r.to_multiset(),
    decreases l.len() + r.len(),
{
    broadcast use vstd::seq_lib::group_to_multiset_ensures;
    broadcast use vstd::multiset::group_multiset_axioms;

    let ov = overlap_spec(l, r);
    if l.len() == 0 {
        assert(firsts(ov.1) =~= Seq::<BenchmarkView>::empty());
        assert(seconds(ov.1) =~= Seq::<BenchmarkView>::empty());
        assert(ov.0 + firsts(ov.1) =~= l);
        assert(ov.2 + seconds(ov.1) =~= r);
    } else if r.len() == 0 {
        assert(firsts(ov.1) =~= Seq::<BenchmarkView>::empty());
        assert(seconds(ov.1) =~= Seq::<BenchmarkView>::empty());
        assert(ov.0 + firsts(ov.1) =~= l);
        assert(ov.2 + seconds(ov.1) =~= r);
    } else if l[0].name == r[0].name {
        let rec = overlap_spec(l.drop_first(), r.drop_first());
        lemma_overlap_totality(l.drop_first(), r.drop_first());
        assert(ov.0 == rec.0 && ov.2 == rec.2);
        let f = firsts(rec.1);
        let g = seconds(rec.1);
        assert(firsts(ov.1) =~= seq![l[0]] + f);
        assert(seconds(ov.1) =~= seq![r[0]] + g);
        lemma_to_multiset_add(ov.0, seq![l[0]] + f);
        lemma_to_multiset_add(seq![l[0]], f);
        lemma_to_multiset_add(rec.0, f);
        assert(l =~= seq![l[0]] + l.drop_first());
        lemma_to_multiset_add(seq![l[0]], l.drop_first());
        assert((ov.0 + firsts(ov.1)).to_multiset() =~= l.to_multiset());
        lemma_to_multiset_add(ov.2, seq![r[0]] + g);
        lemma_to_multiset_add(seq![r[0]], g);
        lemma_to_multiset_add(rec.2, g);
        assert(r =~= seq![r[0]] + r.drop_first());
        lemma_to_multiset_add(seq![r[0]], r.drop_first());
        assert((ov.2 + seconds(ov.1)).to_multiset() =~= r.to_multiset());
    } else if lex_le(l[0].name, r[0].name) {
        let rec = overlap_spec(l.drop_first(), r);
        lemma_overlap_totality(l.drop_first(), r);
        assert(ov.0 + firsts(ov.1) =~= seq![l[0]] + (rec.0 + firsts(rec.1)));
        lemma_to_multiset_add(seq![l[0]], rec.0 + firsts(rec.1));
        assert(l =~= seq![l[0]] + l.drop_first());
        lemma_to_multiset_add(seq![l[0]], l.drop_first());
        assert((ov.0 + firsts(ov.1)).to_multiset() =~= l.to_multiset());
        assert(ov.2 + seconds(ov.1) =~= rec.2 + seconds(rec.1));
    } else {
        let rec = overlap_spec(l, r.drop_first());
        lemma_overlap_totality(l, r.drop_first());
        assert(ov.0 + firsts(ov.1) =~= rec.0 + firsts(rec.1));
        assert(ov.2 + seconds(ov.1) =~= seq![r[0]] + (rec.2 + seconds(rec.1)));
        lemma_to_multiset_add(seq![r[0]], rec.2 + seconds(rec.1));
        assert(r =~= seq![r[0]] + r.drop_first());
        lemma_to_multiset_add(seq![r[0]], r.drop_first());
        assert((ov.2 + seconds(ov.1)).to_multiset() =~= r.to_multiset());
    }
}

proof fn lemma_singleton_multiset<A>(x: A)
    ensures
        seq![x].to_multiset() == Multiset::<A>::empty().insert(x),
{
    broadcast use vstd::seq_lib::group_to_multiset_ensures;
    broadcast use vstd::multiset::group_multiset_axioms;

    assert(seq![x] =~= Seq::<A>::empty().push(x));
    assert(Seq::<A>::empty().to_multiset() =~= Multiset::<A>::empty()) by {
        assert forall|y: A| Seq::<A>::empty().to_multiset().count(y) == 0 by {
            assert(!Seq::<A>::empty().contains(y));
        }
    }
    assert(seq![x].to_multiset() =~= Multiset::<A>::empty().insert(x));
}

/// Every left-only record and every left half of a pair is a record of
/// the left input, and symmetrically for the right.
pub proof fn lemma_overlap_members(l: Seq<BenchmarkView>, r: Seq<BenchmarkView>)
    ensures
        forall|i: int|
            0 <= i < overlap_spec(l, r).0.len() ==> l.contains(#[trigger] overlap_spec(l, r).0[i]),
        forall|j: int|
            0 <= j < overlap_spec(l, r).2.len() ==> r.contains(#[trigger] overlap_spec(l, r).2[j]),
        forall|i: int|
            0 <= i < overlap_spec(l, r).1.len() ==> l.contains(
                firsts(overlap_spec(l, r).1)[i],
            ) && r.contains(seconds(#[trigger] overlap_spec(l, r).1)[i]),
{
    broadcast use vstd::seq_lib::group_to_multiset_ensures;
    broadcast use vstd::multiset::group_multiset_axioms;

    let ov = overlap_spec(l, r);
    lemma_overlap_totality(l, r);
    lemma_to_multiset_add(ov.0, firsts(ov.1));
    lemma_to_multiset_add(ov.2, seconds(ov.1));
    assert forall|i: int| 0 <= i < ov.0.len() implies l.contains(#[trigger] ov.0[i]) by {
        assert(ov.0.contains(ov.0[i]));
        assert(ov.0.to_multiset().count(ov.0[i]) > 0);
        assert(l.to_multiset().count(ov.0[i]) > 0);
    }
    assert forall|j: int| 0 <= j < ov.2.len() implies r.contains(#[trigger] ov.2[j]) by {
        assert(ov.2.contains(ov.2[j]));
        assert(ov.2.to_multiset().count(ov.2[j]) > 0);
        assert(r.to_multiset().count(ov.2[j]) > 0);
    }
    assert forall|i: int| 0 <= i < ov.1.len() implies l.contains(firsts(ov.1)[i]) && r.contains(
        seconds(#[trigger] ov.1)[i],
    ) by {
        assert(firsts(ov.1).contains(firsts(ov.1)[i]));
        assert(firsts(ov.1).to_multiset().count(firsts(ov.1)[i]) > 0);
        assert(l.to_multiset().count(firsts(ov.1)[i]) > 0);
        assert(seconds(ov.1).contains(seconds(ov.1)[i]));
        assert(seconds(ov.1).to_multiset().count(seconds(ov.1)[i]) > 0);
        assert(r.to_multiset().count(seconds(ov.1)[i]) > 0);
    }
}

/// Order preservation: for sorted inputs, the three partitions are
/// themselves sorted by name, in the order the inputs had.
pub proof fn lemma_overlap_sorted(l: Seq<BenchmarkView>, r: Seq<BenchmarkView>)
    requires
        sorted_names(l),
        sorted_names(r),
    ensures
        sorted_names(overlap_spec(l, r).0),
        sorted_names(overlap_spec(l, r).2),
        sorted_names(firsts(overlap_spec(l, r).1)),
    decreases l.len() + r.len(),
{
    let ov = overlap_spec(l, r);
    if l.len() == 0 || r.len() == 0 {
        assert(firsts(ov.1) =~= Seq::<BenchmarkView>::empty());
    } else if l[0].name == r[0].name {
        let ld = l.drop_first();
        let rd = r.drop_first();
        assert(sorted_names(ld));
        assert(sorted_names(rd));
        lemma_overlap_sorted(ld, rd);
        lemma_overlap_members(ld, rd);
        let rec = overlap_spec(ld, rd);
        assert(firsts(ov.1) =~= seq![l[0]] + firsts(rec.1));
        assert forall|i: int, j: int|
            0 <= i < j < firsts(ov.1).len() implies lex_le(
            firsts(ov.1)[i].name,
            firsts(ov.1)[j].name,
        ) by {
            if i == 0 {
                assert(ld.contains(firsts(rec.1)[j - 1]));
                let k = choose|k: int| 0 <= k < ld.len() && ld[k] == firsts(rec.1)[j - 1];
                assert(ld[k] == l[k + 1]);
                assert(lex_le(l[0].name, l[k + 1].name));
            } else {
                assert(firsts(ov.1)[i] == firsts(rec.1)[i - 1]);
                assert(firsts(ov.1)[j] == firsts(rec.1)[j - 1]);
            }
        }
    } else if lex_le(l[0].name, r[0].name) {
        let ld = l.drop_first();
        assert(sorted_names(ld));
        lemma_overlap_sorted(ld, r);
        lemma_overlap_members(ld, r);
        let rec = overlap_spec(ld, r);
        assert(ov.0 =~= seq![l[0]] + rec.0);
        assert forall|i: int, j: int|
            0 <= i < j < ov.0.len() implies lex_le(ov.0[i].name, ov.0[j].name) by {
            if i == 0 {
                assert(ld.contains(rec.0[j - 1]));
                let k = choose|k: int| 0 <= k < ld.len() && ld[k] == rec.0[j - 1];
                assert(ld[k] == l[k + 1]);
                assert(lex_le(l[0].name, l[k + 1].name));
            } else {
                assert(ov.0[i] == rec.0[i - 1]);
                assert(ov.0[j] == rec.0[j - 1]);
            }
        }
    } else {
        let rd = r.drop_first();
        assert(sorted_names(rd));
        lemma_overlap_sorted(l, rd);
        lemma_overlap_members(l, rd);
        let rec = overlap_spec(l, rd);
        assert(ov.2 =~= seq![r[0]] + rec.2);
        assert forall|i: int, j: int|
            0 <= i < j < ov.2.len() implies lex_le(ov.2[i].name, ov.2[j].name) by {
            if i == 0 {
                assert(rd.contains(rec.2[j - 1]));
                let k = choose|k: int| 0 <= k < rd.len() && rd[k] == rec.2[j - 1];
                assert(rd[k] == r[k + 1]);
                assert(lex_le(r[0].name, r[k + 1].name));
            } else {
                assert(ov.2[i] == rec.2[i - 1]);
                assert(ov.2[j] == rec.2[j - 1]);
            }
        }
    }
}

/// Overlap disjointness: for sorted inputs, no name appears both in the
/// left-only and in the right-only partition.
pub proof fn lemma_overlap_disjoint(l: Seq<BenchmarkView>, r: Seq<BenchmarkView>)
    requires
        sorted_names(l),
        sorted_names(r),
    ensures
        forall|i: int, j: int|
            0 <= i < overlap_spec(l, r).0.len() && 0 <= j < overlap_spec(l, r).2.len()
                ==> (#[trigger] overlap_spec(l, r).0[i]).name != (#[trigger] overlap_spec(
                l,
                r,
            ).2[j]).name,
    decreases l.len() + r.len(),
{
    let ov = overlap_spec(l, r);
    if l.len() == 0 || r.len() == 0 {
    } else if l[0].name == r[0].name {
        assert(sorted_names(l.drop_first()));
        assert(sorted_names(r.drop_first()));
        lemma_overlap_disjoint(l.drop_first(), r.drop_first());
    } else if lex_le(l[0].name, r[0].name) {
        assert(sorted_names(l.drop_first()));
        lemma_overlap_disjoint(l.drop_first(), r);
        let rec = overlap_spec(l.drop_first(), r);
        lemma_overlap_members(l.drop_first(), r);
        assert forall|i: int, j: int|
            0 <= i < ov.0.len() && 0 <= j < ov.2.len() implies (#[trigger] ov.0[i]).name != (
        #[trigger] ov.2[j]).name by {
            if i == 0 {
                assert(r.contains(rec.2[j]));
                let k = choose|k: int| 0 <= k < r.len() && r[k] == rec.2[j];
                if k > 0 {
                    assert(lex_le(r[0].name, r[k].name));
                }
                if l[0].name == rec.2[j].name {
                    lemma_lex_le_trans(r[0].name, rec.2[j].name, r[0].name);
                    lemma_lex_le_antisym(l[0].name, r[0].name);
                }
            } else {
                assert(ov.0[i] == rec.0[i - 1]);
            }
        }
    } else {
        assert(sorted_names(r.drop_first()));
        lemma_overlap_disjoint(l, r.drop_first());
        let rec = overlap_spec(l, r.drop_first());
        lemma_overlap_members(l, r.drop_first());
        lemma_lex_le_total(l[0].name, r[0].name);
        assert forall|i: int, j: int|
            0 <= i < ov.0.len() && 0 <= j < ov.2.len() implies (#[trigger] ov.0[i]).name != (
        #[trigger] ov.2[j]).name by {
            if j == 0 {
                assert(l.contains(rec.0[i]));
                let k = choose|k: int| 0 <= k < l.len() && l[k] == rec.0[i];
                if k > 0 {
                    assert(lex_le(l[0].name, l[k].name));
                }
                if r[0].name == rec.0[i].name {
                    lemma_lex_le_trans(l[0].name, rec.0[i].name, l[0].name);
                    lemma_lex_le_antisym(l[0].name, r[0].name);
                }
            } else {
                assert(ov.2[j] == rec.2[j - 1]);
            }
        }
    }
}

/// Take two name-sorted vectors; give back the records unique to the
/// first, the pairs of records whose names match, and the records unique
/// to the second, each in the input order, as the merge
/// [`overlap_spec`] describes.
pub fn find_overlap(left: Vec<Benchmark>, right: Vec<Benchmark>) -> (r: (
    Vec<Benchmark>,
    Vec<(Benchmark, Benchmark)>,
    Vec<Benchmark>,
))
    ensures
        r.0.deep_view() == overlap_spec(left.deep_view(), right.deep_view()).0,
        r.1.deep_view() == overlap_spec(left.deep_view(), right.deep_view()).1,
        r.2.deep_view() == overlap_spec(left.deep_view(), right.deep_view()).2,
{
    let ghost l0 = left.deep_view();
    let ghost r0 = right.deep_view();
    let mut left = left;
    let mut right = right;
    let mut only_left: Vec<Benchmark> = Vec::new();
    let mut pairs: Vec<(Benchmark, Benchmark)> = Vec::new();
    let mut only_right: Vec<Benchmark> = Vec::new();
    while left.len() > 0 || right.len() > 0
        invariant
            overlap_spec(l0, r0).0 =~= only_left.deep_view() + overlap_spec(
                left.deep_view(),
                right.deep_view(),
            ).0,
            overlap_spec(l0, r0).1 =~= pairs.deep_view() + overlap_spec(
                left.deep_view(),
                right.deep_view(),
            ).1,
            overlap_spec(l0, r0).2 =~= only_right.deep_view() + overlap_spec(
                left.deep_view(),
                right.deep_view(),
            ).2,
        decreases left.len() + right.len(),
    {
        let ghost lv = left.deep_view();
        let ghost rv = right.deep_view();
        if left.len() == 0 {
            let x = right.remove(0);
            only_right.push(x);
            proof {
                assert(lv.len() == 0);
                assert(right.deep_view() =~= rv.drop_first());
                assert(overlap_spec(lv, rv).2 =~= seq![x.deep_view()] + overlap_spec(
                    lv,
                    rv.drop_first(),
                ).2) by {
                    assert(rv =~= seq![rv[0]] + rv.drop_first());
                    assert(overlap_spec(lv, rv.drop_first()).2 =~= rv.drop_first());
                }
                assert(only_right.deep_view() + overlap_spec(left.deep_view(), right.deep_view()).2
                    =~= (only_right.deep_view().drop_last() + seq![x.deep_view()]) + overlap_spec(
                    lv,
                    rv.drop_first(),
                ).2);
            }
        } else if right.len() == 0 {
            let x = left.remove(0);
            only_left.push(x);
            proof {
                assert(rv.len() == 0);
                assert(left.deep_view() =~= lv.drop_first());
                assert(overlap_spec(lv, rv).0 =~= seq![x.deep_view()] + overlap_spec(
                    lv.drop_first(),
                    rv,
                ).0) by {
                    assert(lv =~= seq![lv[0]] + lv.drop_first());
                    assert(overlap_spec(lv.drop_first(), rv).0 =~= lv.drop_first());
                }
            }
        } else {
            let names_equal = left[0].name.eq(&right[0].name);
            if names_equal {
                let a = left.remove(0);
                let b = right.remove(0);
                pairs.push((a, b));
                proof {
                    assert(left.deep_view() =~= lv.drop_first());
                    assert(right.deep_view() =~= rv.drop_first());
                    assert(lv[0].name == rv[0].name);
                    assert(overlap_spec(lv, rv).0 == overlap_spec(
                        lv.drop_first(),
                        rv.drop_first(),
                    ).0);
                    assert(overlap_spec(lv, rv).1 =~= seq![(lv[0], rv[0])] + overlap_spec(
                        lv.drop_first(),
                        rv.drop_first(),
                    ).1);
                    assert(overlap_spec(lv, rv).2 == overlap_spec(
                        lv.drop_first(),
                        rv.drop_first(),
                    ).2);
                }
            } else {
                let le = str_le(left[0].name.as_str(), right[0].name.as_str());
                if le {
                    let x = left.remove(0);
                    only_left.push(x);
                    proof {
                        assert(left.deep_view() =~= lv.drop_first());
                        assert(lv[0].name != rv[0].name);
                        assert(lex_le(lv[0].name, rv[0].name));
                        assert(overlap_spec(lv, rv).0 =~= seq![lv[0]] + overlap_spec(
                            lv.drop_first(),
                            rv,
                        ).0);
                    }
                } else {
                    let x = right.remove(0);
                    only_right.push(x);
                    proof {
                        assert(right.deep_view() =~= rv.drop_first());
                        assert(lv[0].name != rv[0].name);
                        assert(!lex_le(lv[0].name, rv[0].name));
                        assert(overlap_spec(lv, rv).2 =~= seq![rv[0]] + overlap_spec(
                            lv,
                            rv.drop_first(),
                        ).2);
                    }
                }
            }
        }
    }
    proof {
        assert(overlap_spec(left.deep_view(), right.deep_view()).0 =~= Seq::<
            BenchmarkView,
        >::empty());
        assert(overlap_spec(left.deep_view(), right.deep_view()).1 =~= Seq::<
            (BenchmarkView, BenchmarkView),
        >::empty());
        assert(overlap_spec(left.deep_view(), right.deep_view()).2 =~= Seq::<
            BenchmarkView,
        >::empty());
        assert(only_left.deep_view() =~= only_left.deep_view() + Seq::<BenchmarkView>::empty());
        assert(pairs.deep_view() =~= pairs.deep_view() + Seq::<
            (BenchmarkView, BenchmarkView),
        >::empty());
        assert(only_right.deep_view() =~= only_right.deep_view() + Seq::<BenchmarkView>::empty());
    }
    (only_left, pairs, only_right)
}

/// A record whose name no right-side record carries is never paired:
/// it lands in the left-only partition exactly as often as the left
/// input holds it, and it is neither side of any pair. Symmetrically
/// with the sides swapped.
pub proof fn lemma_overlap_unmatched_left(
    l: Seq<BenchmarkView>,
    r: Seq<BenchmarkView>,
    b: BenchmarkView,
)
    requires
        forall|j: int| 0 <= j < r.len() ==> (#[trigger] r[j]).name != b.name,
    ensures
        overlap_spec(l, r).0.to_multiset().count(b) == l.to_multiset().count(b),
        forall|i: int|
            0 <= i < overlap_spec(l, r).1.len() ==> (#[trigger] overlap_spec(l, r).1[i]).0 != b
                && overlap_spec(l, r).1[i].1 != b,
{
    broadcast use vstd::seq_lib::group_to_multiset_ensures;
    broadcast use vstd::multiset::group_multiset_axioms;

    let ov = overlap_spec(l, r);
    lemma_overlap_totality(l, r);
    lemma_overlap_pairs_equal(l, r);
    lemma_overlap_members(l, r);
    assert forall|i: int| 0 <= i < ov.1.len() implies (#[trigger] ov.1[i]).0 != b && ov.1[i].1
        != b by {
        assert(r.contains(seconds(ov.1)[i]));
        let j = choose|j: int| 0 <= j < r.len() && r[j] == seconds(ov.1)[i];
        assert(seconds(ov.1)[i] == ov.1[i].1);
        assert(ov.1[i].1.name != b.name);
        assert(ov.1[i].0.name == ov.1[i].1.name);
    }
    assert(firsts(ov.1).to_multiset().count(b) == 0) by {
        if firsts(ov.1).to_multiset().count(b) > 0 {
            assert(firsts(ov.1).contains(b));
            let i = choose|i: int| 0 <= i < firsts(ov.1).len() && firsts(ov.1)[i] == b;
            assert(ov.1[i].0 == b);
        }
    }
    lemma_to_multiset_add(ov.0, firsts(ov.1));
}

/// The mirror image of [`lemma_overlap_unmatched_left`]: a record whose
/// name no left-side record carries falls to the right-only partition
/// exactly as often as the right input holds it, and joins no pair.
pub proof fn lemma_overlap_unmatched_right(
    l: Seq<BenchmarkView>,
    r: Seq<BenchmarkView>,
    b: BenchmarkView,
)
    requires
        forall|j: int| 0 <= j < l.len() ==> (#[trigger] l[j]).name != b.name,
    ensures
        overlap_spec(l, r).2.to_multiset().count(b) == r.to_multiset().count(b),
        forall|i: int|
            0 <= i < overlap_spec(l, r).1.len() ==> (#[trigger] overlap_spec(l, r).1[i]).0 != b
                && overlap_spec(l, r).1[i].1 != b,
{
    broadcast use vstd::seq_lib::group_to_multiset_ensures;
    broadcast use vstd::multiset::group_multiset_axioms;

    let ov = overlap_spec(l, r);
    lemma_overlap_totality(l, r);
    lemma_overlap_pairs_equal(l, r);
    lemma_overlap_members(l, r);
    assert forall|i: int| 0 <= i < ov.1.len() implies (#[trigger] ov.1[i]).0 != b && ov.1[i].1
        != b by {
        assert(l.contains(firsts(ov.1)[i]));
        let j = choose|j: int| 0 <= j < l.len() && l[j] == firsts(ov.1)[i];
        assert(firsts(ov.1)[i] == ov.1[i].0);
        assert(ov.1[i].0.name != b.name);
        assert(ov.1[i].0.name == ov.1[i].1.name);
    }
    assert(seconds(ov.1).to_multiset().count(b) == 0) by {
        if seconds(ov.1).to_multiset().count(b) > 0 {
            assert(seconds(ov.1).contains(b));
            let i = choose|i: int| 0 <= i < seconds(ov.1).len() && seconds(ov.1)[i] == b;
            assert(ov.1[i].1 == b);
        }
    }
    lemma_to_multiset_add(ov.2, seconds(ov.1));
}

/// A record inserted behind every record whose name is less than or
/// equal to its own: the insertion step of a stable, name-ordered
/// insertion sort.
pub open spec fn insert_by_name(s: Seq<BenchmarkView>, b: BenchmarkView) -> Seq<BenchmarkView>
    decreases s.len(),
{
    if s.len() == 0 {
        seq![b]
    } else if lex_le(s.last().name, b.name) {
        s.push(b)
    } else {
        insert_by_name(s.drop_last(), b).push(s.last())
    }
}

/// The stable, name-ordered insertion sort: records are taken in input
/// order and each lands behind every earlier record whose name is less
/// than or equal to its own, so records with equal names keep their
/// relative input order.
pub open spec fn sort_by_name_spec(v: Seq<BenchmarkView>) -> Seq<BenchmarkView>
    decreases v.len(),
{
    if v.len() == 0 {
        Seq::empty()
    } else {
        insert_by_name(sort_by_name_spec(v.drop_last()), v.last())
    }
}

/// Inserting at the index where everything before is at most the new
/// name and everything after is strictly above it is exactly
/// `insert_by_name`.
proof fn lemma_insert_by_name_at(s: Seq<BenchmarkView>, b: BenchmarkView, k: int)
    requires
        0 <= k <= s.len(),
        forall|m: int| k <= m < s.len() ==> !lex_le((#[trigger] s[m]).name, b.name),
        k > 0 ==> lex_le(s[k - 1].name, b.name),
    ensures
        insert_by_name(s, b) == s.insert(k, b),
    decreases s.len(),
{
    if s.len() == 0 {
        assert(insert_by_name(s, b) =~= s.insert(0, b));
    } else if k == s.len() as int {
        assert(lex_le(s.last().name, b.name));
        assert(insert_by_name(s, b) == s.push(b));
        assert(s.push(b) =~= s.insert(k, b));
    } else {
        assert(!lex_le(s.last().name, b.name));
        assert(insert_by_name(s, b) == insert_by_name(s.drop_last(), b).push(s.last()));
        assert forall|m: int| k <= m < s.drop_last().len() implies !lex_le(
            (#[trigger] s.drop_last()[m]).name,
            b.name,
        ) by {
            assert(s.drop_last()[m] == s[m]);
        }
        lemma_insert_by_name_at(s.drop_last(), b, k);
        s.drop_last().insert_ensures(k, b);
        s.insert_ensures(k, b);
        assert(s.drop_last().insert(k, b).push(s.last()) =~= s.insert(k, b));
    }
}

/// Sort records by name in ascending lexicographic order. The result is
/// exactly the stable insertion sort [`sort_by_name_spec`] of the
/// input: the same multiset of records, name-sorted, with records of
/// equal name kept in their input order.
pub fn sort_by_name(v: Vec<Benchmark>) -> (r: Vec<Benchmark>)
    ensures
        sorted_names(r.deep_view()),
        r.deep_view().to_multiset() == v.deep_view().to_multiset(),
        r.deep_view() == sort_by_name_spec(v.deep_view()),
{
    broadcast use vstd::seq_lib::group_to_multiset_ensures;
    broadcast use vstd::multiset::group_multiset_axioms;

    let ghost orig = v.deep_view();
    let mut v = v;
    let mut out: Vec<Benchmark> = Vec::new();
    proof {
        assert(orig.skip(0) =~= orig);
        assert(out.deep_view() =~= sort_by_name_spec(orig.take(0)));
    }
    while v.len() > 0
        invariant
            sorted_names(out.deep_view()),
            out.deep_view().to_multiset().add(v.deep_view().to_multiset())
                == orig.to_multiset(),
            v.deep_view().len() <= orig.len(),
            v.deep_view() == orig.skip(orig.len() - v.deep_view().len()),
            out.deep_view() == sort_by_name_spec(orig.take(orig.len() - v.deep_view().len())),
        decreases v.len(),
    {
        let ghost vv = v.deep_view();
        let ghost outv = out.deep_view();
        let ghost p = orig.len() - vv.len();
        let x = v.remove(0);
        proof {
            assert(v.deep_view() =~= vv.drop_first());
            assert(vv =~= seq![x.deep_view()] + vv.drop_first());
            lemma_to_multiset_add(seq![x.deep_view()], vv.drop_first());
            lemma_singleton_multiset(x.deep_view());
            assert(vv.len() > 0);
            assert(vv == orig.skip(p));
            assert(vv[0] == orig.skip(p)[0]);
            assert(orig.skip(p)[0] == orig[p]);
            assert(x.deep_view() == vv[0]);
            assert(x.deep_view() == orig[p]);
            assert(v.deep_view() =~= orig.skip(p + 1));
        }
        let mut k = out.len();
        while k > 0 && !str_le(out[k - 1].name.as_str(), x.name.as_str())
            invariant
                k <= out@.len(),
                out.deep_view() == outv,
                forall|m: int|
                    k <= m < outv.len() ==> !lex_le((#[trigger] outv[m]).name, x.deep_view().name),
            decreases k,
        {
            k = k - 1;
        }
        proof {
            let xv = x.deep_view();
            if k > 0 {
                assert(lex_le(outv[k - 1].name, xv.name));
            }
            assert forall|m: int| 0 <= m < k implies lex_le((#[trigger] outv[m]).name, xv.name) by {
                if m < k - 1 {
                    assert(lex_le(outv[m].name, outv[k - 1].name));
                    lemma_lex_le_trans(outv[m].name, outv[k - 1].name, xv.name);
                }
            }
            assert forall|m: int| k <= m < outv.len() implies lex_le(
                xv.name,
                (#[trigger] outv[m]).name,
            ) by {
                lemma_lex_le_total(outv[m].name, xv.name);
            }
        }
        out.insert(k, x);
        proof {
            let xv = x.deep_view();
            assert(out.deep_view() =~~= outv.insert(k as int, xv));
            lemma_insert_by_name_at(outv, xv, k as int);
            assert(orig.take(p + 1).drop_last() =~= orig.take(p));
            assert(orig.take(p + 1).last() == orig[p]);
            assert(sort_by_name_spec(orig.take(p + 1)) == insert_by_name(
                sort_by_name_spec(orig.take(p)),
                orig[p],
            ));
            assert(out.deep_view() == sort_by_name_spec(orig.take(p + 1)));
            vstd::seq_lib::to_multiset_insert(outv, k as int, xv);
            assert(out.deep_view().to_multiset().add(v.deep_view().to_multiset())
                =~= orig.to_multiset());
            let newv = out.deep_view();
            assert(newv =~= outv.insert(k as int, xv));
            outv.insert_ensures(k as int, xv);
            assert forall|i: int, j: int|
                0 <= i < j < newv.len() implies lex_le(newv[i].name, newv[j].name) by {
                if j < k {
                    assert(newv[i] == outv[i] && newv[j] == outv[j]);
                } else if i > k {
                    assert(newv[i] == outv[i - 1] && newv[j] == outv[j - 1]);
                } else if i == k {
                    assert(newv[i] == xv && newv[j] == outv[j - 1]);
                } else if j == k {
                    assert(newv[i] == outv[i] && newv[j] == xv);
                } else {
                    assert(i < k && j > k);
                    assert(newv[i] == outv[i] && newv[j] == outv[j - 1]);
                    lemma_lex_le_trans(outv[i].name, xv.name, outv[j - 1].name);
                }
            }
        }
    }
    proof {
        assert(v.deep_view().to_multiset() =~= Multiset::<BenchmarkView>::empty()) by {
            assert(v.deep_view().len() == 0);
            assert forall|y: BenchmarkView| v.deep_view().to_multiset().count(y) == 0 by {
                assert(!v.deep_view().contains(y));
            }
        }
        assert(out.deep_view().to_multiset().add(Multiset::<BenchmarkView>::empty())
            =~= out.deep_view().to_multiset());
        assert(orig.take(orig.len() as int) =~= orig);
    }
    out
}

} // verus!
