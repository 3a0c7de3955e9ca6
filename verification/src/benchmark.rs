//! The benchmark record, its formatting, the comparison arithmetic
//! between a paired old and new measurement, and the pairing pipeline
//! that matches an old and a new run.
use crate::overlap::{
    find_overlap, overlap_spec, sort_by_name, sort_by_name_spec, sorted_names,
};
use crate::text::push_char;
use crate::utils::{commafy, dec_rep, grouped, u64_to_dec_string};
use vstd::prelude::*;

verus! {

/// Mathematical image of a [`FailedMsg`].
#[verifier::ext_equal]
pub struct FailedMsgView {
    pub name: Seq<char>,
    pub msg: Seq<char>,
}

/// Mathematical image of a [`Status`].
#[verifier::ext_equal]
pub enum StatusView {
    Measured,
    Failed(Option<FailedMsgView>),
}

/// Mathematical image of a [`Benchmark`].
#[verifier::ext_equal]
pub struct BenchmarkView {
    pub name: Seq<char>,
    pub ns: u64,
    pub variance: u64,
    pub throughput: Option<u64>,
    pub status: StatusView,
}

/// The diagnostic attached to a failed benchmark: the name of the failure
/// section it was found under and the panic message.
pub struct FailedMsg {
    pub name: String,
    pub msg: String,
}

impl View for FailedMsg {
    type V = FailedMsgView;

    open spec fn view(&self) -> FailedMsgView {
        FailedMsgView { name: self.name@, msg: self.msg@ }
    }
}

impl DeepView for FailedMsg {
    type V = FailedMsgView;

    open spec fn deep_view(&self) -> FailedMsgView {
        self.view()
    }
}

/// Whether a benchmark was measured or failed; a failed benchmark may
/// carry the diagnostic scanned from a later failure section.
pub enum Status {
    Measured,
    Failed(Option<FailedMsg>),
}

impl View for Status {
    type V = StatusView;

    open spec fn view(&self) -> StatusView {
        match self {
            Status::Measured => StatusView::Measured,
            Status::Failed(None) => StatusView::Failed(None),
            Status::Failed(Some(m)) => StatusView::Failed(Some(m@)),
        }
    }
}

impl DeepView for Status {
    type V = StatusView;

    open spec fn deep_view(&self) -> StatusView {
        self.view()
    }
}

/// All extractable data from a single micro-benchmark line.
pub struct Benchmark {
    pub name: String,
    pub ns: u64,
    pub variance: u64,
    pub throughput: Option<u64>,
    pub status: Status,
}

impl View for Benchmark {
    type V = BenchmarkView;

    open spec fn view(&self) -> BenchmarkView {
        BenchmarkView {
            name: self.name@,
            ns: self.ns,
            variance: self.variance,
            throughput: self.throughput,
            status: self.status@,
        }
    }
}

impl DeepView for Benchmark {
    type V = BenchmarkView;

    open spec fn deep_view(&self) -> BenchmarkView {
        self.view()
    }
}

/// The measurement column for a benchmark: the grouped nanosecond figure,
/// the variance when requested, and the throughput when present.
pub open spec fn spec_fmt_ns(b: BenchmarkView, variance: bool) -> Seq<char> {
    let base = grouped(dec_rep(b.ns as nat), ',');
    let with_var = if variance {
        base + " (+/- "@ + dec_rep(b.variance as nat) + ")"@
    } else {
        base
    };
    match b.throughput {
        Some(t) => with_var + " ("@ + dec_rep(t as nat) + " MB/s)"@,
        None => with_var,
    }
}

/// The canonical report line for a measured benchmark.
pub open spec fn spec_line(b: BenchmarkView) -> Seq<char> {
    let base = "test "@ + b.name + " ... bench: "@ + dec_rep(b.ns as nat) + " ns/iter (+/- "@
        + dec_rep(b.variance as nat) + ")"@;
    match b.throughput {
        Some(t) => base + " = "@ + dec_rep(t as nat) + " MB/s"@,
        None => base,
    }
}

impl Benchmark {
    /// Render the measurement column of this benchmark.
    pub fn fmt_ns(&self, variance: bool) -> (r: String)
        ensures
            r@ == spec_fmt_ns(self@, variance),
    {
        let mut res = commafy(self.ns);
        if variance {
            res.append(" (+/- ");
            let var = u64_to_dec_string(self.variance);
            res.append(var.as_str());
            res.append(")");
        }
        match self.throughput {
            Some(t) => {
                res.append(" (");
                let th = u64_to_dec_string(t);
                res.append(th.as_str());
                res.append(" MB/s)");
            },
            None => {},
        }
        proof {
            assert(res@ =~= spec_fmt_ns(self@, variance));
        }
        res
    }

    /// Render this benchmark as its canonical report line.
    pub fn to_line(&self) -> (r: String)
        ensures
            r@ == spec_line(self@),
    {
        let mut res = String::new();
        res.append("test ");
        res.append(self.name.as_str());
        res.append(" ... bench: ");
        let ns = u64_to_dec_string(self.ns);
        res.append(ns.as_str());
        res.append(" ns/iter (+/- ");
        let var = u64_to_dec_string(self.variance);
        res.append(var.as_str());
        res.append(")");
        match self.throughput {
            Some(t) => {
                res.append(" = ");
                let th = u64_to_dec_string(t);
                res.append(th.as_str());
                res.append(" MB/s");
            },
            None => {},
        }
        proof {
            assert(res@ =~= spec_line(self@));
        }
        res
    }

    /// Compare an old benchmark (`self`) with a new benchmark.
    ///
    /// The difference is `new - old` in nanoseconds: negative means the
    /// new run is faster (an improvement), positive means it is slower
    /// (a regression). A difference beyond the `i64` range is saturated.
    pub fn compare(self, new: Benchmark) -> (r: Comparison)
        ensures
            r.old == self,
            r.new == new,
            r.diff_ns as int == sat_i64(new.ns as int - self.ns as int),
            r@ == compare_view(self@, new@),
    {
        let d: i128 = new.ns as i128 - self.ns as i128;
        let diff_ns: i64 = if d > i64::MAX as i128 {
            i64::MAX
        } else if d < i64::MIN as i128 {
            i64::MIN
        } else {
            d as i64
        };
        let r = Comparison { old: self, new: new, diff_ns: diff_ns };
        proof {
            assert(r@ =~= compare_view(r.old@, r.new@));
        }
        r
    }
}

/// The comparison record derived from a paired old and new measurement.
pub open spec fn compare_view(o: BenchmarkView, n: BenchmarkView) -> ComparisonView {
    ComparisonView { old: o, new: n, diff_ns: sat_i64(n.ns as int - o.ns as int) as i64 }
}

/// `x` clamped to the range of `i64`.
pub open spec fn sat_i64(x: int) -> int {
    if x > i64::MAX as int {
        i64::MAX as int
    } else if x < i64::MIN as int {
        i64::MIN as int
    } else {
        x
    }
}

pub open spec fn abs_int(x: int) -> int {
    if x < 0 {
        -x
    } else {
        x
    }
}

/// Mathematical image of a [`Comparison`].
#[verifier::ext_equal]
pub struct ComparisonView {
    pub old: BenchmarkView,
    pub new: BenchmarkView,
    pub diff_ns: i64,
}

/// A comparison between an old and a new measurement of one benchmark.
///
/// `diff_ns` is `new.ns - old.ns` (saturated to `i64`): negative values
/// are improvements, positive values are regressions.
pub struct Comparison {
    pub old: Benchmark,
    pub new: Benchmark,
    pub diff_ns: i64,
}

impl View for Comparison {
    type V = ComparisonView;

    open spec fn view(&self) -> ComparisonView {
        ComparisonView { old: self.old@, new: self.new@, diff_ns: self.diff_ns }
    }
}

impl DeepView for Comparison {
    type V = ComparisonView;

    open spec fn deep_view(&self) -> ComparisonView {
        self.view()
    }
}

/// Whether the truncated absolute percentage change reaches `threshold`.
///
/// The percentage is `100 * |diff_ns| / old.ns`, truncated towards zero.
/// When the old measurement is zero and the difference is not, the change
/// counts as infinitely large and reaches every threshold; a zero
/// difference over a zero measurement counts as zero percent.
pub open spec fn spec_passes_threshold(old_ns: u64, diff_ns: i64, threshold: u8) -> bool {
    if old_ns == 0 {
        if diff_ns == 0 {
            threshold == 0
        } else {
            true
        }
    } else {
        100 * abs_int(diff_ns as int) / (old_ns as int) >= threshold as int
    }
}

/// Which comparisons a report keeps: every filter that is set must pass.
/// A zero difference is neither an improvement nor a regression and
/// passes both direction filters.
pub open spec fn spec_passes_filters(
    c: ComparisonView,
    threshold: Option<u8>,
    improvements: bool,
    regressions: bool,
) -> bool {
    &&& (threshold matches Some(t) ==> spec_passes_threshold(c.old.ns, c.diff_ns, t))
    &&& (improvements ==> c.diff_ns <= 0)
    &&& (regressions ==> c.diff_ns >= 0)
}

impl Comparison {
    /// Whether the new measurement is slower than the old one.
    pub fn is_regression(&self) -> (r: bool)
        ensures
            r == (self.diff_ns > 0),
    {
        self.diff_ns > 0
    }

    /// Whether this comparison's truncated absolute percentage change
    /// reaches the threshold.
    pub fn passes_threshold(&self, threshold: u8) -> (r: bool)
        ensures
            r == spec_passes_threshold(self.old.ns, self.diff_ns, threshold),
    {
        if self.old.ns == 0 {
            self.diff_ns != 0 || threshold == 0
        } else {
            let a: i128 = self.diff_ns as i128;
            let a: i128 = if a < 0 {
                -a
            } else {
                a
            };
            let pct: i128 = 100 * a / (self.old.ns as i128);
            pct >= threshold as i128
        }
    }

    /// Whether this comparison survives the configured filters: an unset
    /// threshold excludes nothing; `improvements` keeps only
    /// non-regressions; `regressions` keeps only non-improvements; a zero
    /// difference passes both direction filters.
    pub fn passes_filters(&self, threshold: Option<u8>, improvements: bool, regressions: bool) -> (r:
        bool)
        ensures
            r == spec_passes_filters(self@, threshold, improvements, regressions),
    {
        let t_ok = match threshold {
            Some(t) => self.passes_threshold(t),
            None => true,
        };
        t_ok && (!improvements || self.diff_ns <= 0) && (!regressions || self.diff_ns >= 0)
    }

    /// The formatted difference column: the absolute difference with
    /// grouped digits, preceded by a minus sign for an improvement.
    pub fn fmt_diff_ns(&self) -> (r: String)
        ensures
            r@ == if self.diff_ns < 0 {
                seq!['-'] + grouped(dec_rep(abs_int(self.diff_ns as int) as nat), ',')
            } else {
                grouped(dec_rep(self.diff_ns as nat), ',')
            },
    {
        if self.diff_ns < 0 {
            let mag: u64 = if self.diff_ns == i64::MIN {
                9223372036854775808u64
            } else {
                (-self.diff_ns) as u64
            };
            let mut res = String::new();
            push_char(&mut res, '-');
            let digits = commafy(mag);
            res.append(digits.as_str());
            proof {
                assert(res@ =~= seq!['-'] + grouped(
                    dec_rep(abs_int(self.diff_ns as int) as nat),
                    ',',
                ));
            }
            res
        } else {
            commafy(self.diff_ns as u64)
        }
    }
}

impl Status {
    /// Whether this status is the measured one.
    pub fn is_measured(&self) -> (r: bool)
        ensures
            r == (self@ is Measured),
    {
        match self {
            Status::Measured => true,
            Status::Failed(_) => false,
        }
    }
}

/// The comparisons among a sequence of (old, new) pairs: one for each
/// pair whose two sides were both measured, in order.
pub open spec fn comparisons_spec(ps: Seq<(BenchmarkView, BenchmarkView)>) -> Seq<ComparisonView>
    decreases ps.len(),
{
    if ps.len() == 0 {
        Seq::empty()
    } else {
        let rest = comparisons_spec(ps.drop_first());
        if ps[0].0.status is Measured && ps[0].1.status is Measured {
            seq![compare_view(ps[0].0, ps[0].1)] + rest
        } else {
            rest
        }
    }
}

/// The new sides of the pairs whose new side failed, in order: the
/// benchmarks that regressed to a failure.
pub open spec fn failures_spec(ps: Seq<(BenchmarkView, BenchmarkView)>) -> Seq<BenchmarkView>
    decreases ps.len(),
{
    if ps.len() == 0 {
        Seq::empty()
    } else {
        let rest = failures_spec(ps.drop_first());
        if !(ps[0].1.status is Measured) {
            seq![ps[0].1] + rest
        } else {
            rest
        }
    }
}

/// The new sides of the pairs whose old side failed but whose new side
/// was measured, in order: the benchmarks that newly succeeded.
pub open spec fn new_benches_spec(ps: Seq<(BenchmarkView, BenchmarkView)>) -> Seq<BenchmarkView>
    decreases ps.len(),
{
    if ps.len() == 0 {
        Seq::empty()
    } else {
        let rest = new_benches_spec(ps.drop_first());
        if ps[0].1.status is Measured && !(ps[0].0.status is Measured) {
            seq![ps[0].1] + rest
        } else {
            rest
        }
    }
}

/// Two sets of benchmarks that are comparable but have not been paired
/// up yet.
pub struct Benchmarks {
    old: Vec<Benchmark>,
    new: Vec<Benchmark>,
}

impl Benchmarks {
    /// The old-run records.
    pub closed spec fn old_seq(&self) -> Seq<BenchmarkView> {
        self.old.deep_view()
    }

    /// The new-run records.
    pub closed spec fn new_seq(&self) -> Seq<BenchmarkView> {
        self.new.deep_view()
    }

    /// Wrap an (old, new) pair of record lists.
    pub fn from(pair: (Vec<Benchmark>, Vec<Benchmark>)) -> (r: Benchmarks)
        ensures
            r.old_seq() == pair.0.deep_view(),
            r.new_seq() == pair.1.deep_view(),
    {
        Benchmarks { old: pair.0, new: pair.1 }
    }

    /// Pair up the two runs: sort each side by name with the stable
    /// sort — so records with duplicate names are consumed in their
    /// encounter order and pair up positionally — merge the sorted runs
    /// into unpaired and paired records, and split the pairs by status
    /// into comparisons, regressions to failure, and new successes.
    pub fn paired(self) -> (r: PairedBenchmarks)
        ensures
            ({
                let so = sort_by_name_spec(self.old_seq());
                let sn = sort_by_name_spec(self.new_seq());
                &&& sorted_names(so)
                &&& so.to_multiset() == self.old_seq().to_multiset()
                &&& sorted_names(sn)
                &&& sn.to_multiset() == self.new_seq().to_multiset()
                &&& paired_matches(r, so, sn)
            }),
    {
        let sorted_old = sort_by_name(self.old);
        let sorted_new = sort_by_name(self.new);
        let ghost so = sorted_old.deep_view();
        let ghost sn = sorted_new.deep_view();
        let (unpaired_old, pairs, unpaired_new) = find_overlap(sorted_old, sorted_new);
        let ghost ps0 = overlap_spec(so, sn).1;
        let mut pairs = pairs;
        let mut cmps: Vec<Comparison> = Vec::new();
        let mut failed: Vec<Benchmark> = Vec::new();
        let mut benched_new: Vec<Benchmark> = Vec::new();
        proof {
            assert(pairs.deep_view() == ps0);
        }
        while pairs.len() > 0
            invariant
                comparisons_spec(ps0) =~= cmps.deep_view() + comparisons_spec(pairs.deep_view()),
                failures_spec(ps0) =~= failed.deep_view() + failures_spec(pairs.deep_view()),
                new_benches_spec(ps0) =~= benched_new.deep_view() + new_benches_spec(
                    pairs.deep_view(),
                ),
            decreases pairs.len(),
        {
            let ghost pv = pairs.deep_view();
            let pair = pairs.remove(0);
            let a = pair.0;
            let b = pair.1;
            proof {
                assert(pairs.deep_view() =~= pv.drop_first());
                assert(pv[0] == (a@, b@));
            }
            if !b.status.is_measured() {
                failed.push(b);
            } else if !a.status.is_measured() {
                benched_new.push(b);
            } else {
                cmps.push(a.compare(b));
            }
        }
        proof {
            assert(comparisons_spec(pairs.deep_view()) =~= Seq::<ComparisonView>::empty());
            assert(failures_spec(pairs.deep_view()) =~= Seq::<BenchmarkView>::empty());
            assert(new_benches_spec(pairs.deep_view()) =~= Seq::<BenchmarkView>::empty());
            assert(cmps.deep_view() =~= cmps.deep_view() + Seq::<ComparisonView>::empty());
            assert(failed.deep_view() =~= failed.deep_view() + Seq::<BenchmarkView>::empty());
            assert(benched_new.deep_view() =~= benched_new.deep_view() + Seq::<
                BenchmarkView,
            >::empty());
        }
        let r = PairedBenchmarks {
            cmps: cmps,
            failed: failed,
            benched_new: benched_new,
            unpaired_old: unpaired_old,
            unpaired_new: unpaired_new,
        };
        proof {
            assert(paired_matches(r, so, sn));
        }
        r
    }
}

/// The paired result `r` is exactly what merging the sorted runs `so`
/// and `sn` and splitting the pairs by status yields.
pub open spec fn paired_matches(
    r: PairedBenchmarks,
    so: Seq<BenchmarkView>,
    sn: Seq<BenchmarkView>,
) -> bool {
    &&& r.cmps_seq() == comparisons_spec(overlap_spec(so, sn).1)
    &&& r.failed_seq() == failures_spec(overlap_spec(so, sn).1)
    &&& r.benched_new_seq() == new_benches_spec(overlap_spec(so, sn).1)
    &&& r.unpaired_old_seq() == overlap_spec(so, sn).0
    &&& r.unpaired_new_seq() == overlap_spec(so, sn).2
}

/// Every comparison in the split joins the two sides of some pair in
/// which both records were measured.
pub proof fn lemma_comparisons_from_pairs(ps: Seq<(BenchmarkView, BenchmarkView)>)
    ensures
        forall|i: int|
            #![trigger comparisons_spec(ps)[i]]
            0 <= i < comparisons_spec(ps).len() ==> exists|j: int|
                0 <= j < ps.len() && (#[trigger] ps[j]).0.status is Measured
                    && ps[j].1.status is Measured && comparisons_spec(ps)[i] == compare_view(
                    ps[j].0,
                    ps[j].1,
                ),
    decreases ps.len(),
{
    if ps.len() > 0 {
        lemma_comparisons_from_pairs(ps.drop_first());
        let rest = comparisons_spec(ps.drop_first());
        let both = ps[0].0.status is Measured && ps[0].1.status is Measured;
        assert forall|i: int|
            #![trigger comparisons_spec(ps)[i]]
            0 <= i < comparisons_spec(ps).len() implies exists|j: int|
            0 <= j < ps.len() && (#[trigger] ps[j]).0.status is Measured && ps[j].1.status
                is Measured && comparisons_spec(ps)[i] == compare_view(ps[j].0, ps[j].1) by {
            if both && i == 0 {
                assert(comparisons_spec(ps)[0] == compare_view(ps[0].0, ps[0].1));
            } else {
                let off: int = if both {
                    1
                } else {
                    0
                };
                assert(comparisons_spec(ps)[i] == rest[i - off]);
                let j0 = choose|j0: int|
                    0 <= j0 < ps.drop_first().len() && (ps.drop_first()[j0]).0.status is Measured
                        && ps.drop_first()[j0].1.status is Measured && rest[i - off]
                        == compare_view(ps.drop_first()[j0].0, ps.drop_first()[j0].1);
                assert(ps.drop_first()[j0] == ps[j0 + 1]);
            }
        }
    }
}

/// The failures list holds exactly the new sides of the pairs whose new
/// side failed: every such pair is reported there, and nothing in it
/// was measured.
pub proof fn lemma_failures_from_pairs(ps: Seq<(BenchmarkView, BenchmarkView)>)
    ensures
        forall|j: int|
            0 <= j < ps.len() && !((#[trigger] ps[j]).1.status is Measured) ==> failures_spec(
                ps,
            ).contains(ps[j].1),
        forall|i: int|
            0 <= i < failures_spec(ps).len() ==> !((#[trigger] failures_spec(ps)[i]).status
                is Measured),
    decreases ps.len(),
{
    if ps.len() > 0 {
        lemma_failures_from_pairs(ps.drop_first());
        let rest = failures_spec(ps.drop_first());
        let fails0 = !(ps[0].1.status is Measured);
        assert forall|i: int| 0 <= i < failures_spec(ps).len() implies !((
        #[trigger] failures_spec(ps)[i]).status is Measured) by {
            if fails0 {
                if i == 0 {
                    assert(failures_spec(ps)[0] == ps[0].1);
                } else {
                    assert(failures_spec(ps)[i] == rest[i - 1]);
                }
            } else {
                assert(failures_spec(ps)[i] == rest[i]);
            }
        }
        assert forall|j: int|
            0 <= j < ps.len() && !((#[trigger] ps[j]).1.status is Measured) implies failures_spec(
            ps,
        ).contains(ps[j].1) by {
            if j == 0 {
                assert(failures_spec(ps)[0] == ps[0].1);
            } else {
                assert(ps.drop_first()[j - 1] == ps[j]);
                assert(rest.contains(ps[j].1));
                let k = choose|k: int| 0 <= k < rest.len() && rest[k] == ps[j].1;
                if fails0 {
                    assert(failures_spec(ps)[k + 1] == rest[k]);
                } else {
                    assert(failures_spec(ps)[k] == rest[k]);
                }
            }
        }
    }
}

/// The new sides of a sequence of comparisons.
pub open spec fn news_of(cs: Seq<ComparisonView>) -> Seq<BenchmarkView> {
    cs.map_values(|c: ComparisonView| c.new)
}

/// The status split loses nothing and invents nothing: every pair lands
/// in exactly one of the comparisons, the failures and the new
/// successes, and together the three lists hold exactly the pairs' new
/// sides.
pub proof fn lemma_pairs_partition(ps: Seq<(BenchmarkView, BenchmarkView)>)
    ensures
        comparisons_spec(ps).len() + failures_spec(ps).len() + new_benches_spec(ps).len()
            == ps.len(),
        (news_of(comparisons_spec(ps)) + failures_spec(ps) + new_benches_spec(
            ps,
        )).to_multiset() == crate::overlap::seconds(ps).to_multiset(),
    decreases ps.len(),
{
    broadcast use vstd::seq_lib::group_to_multiset_ensures;
    broadcast use vstd::multiset::group_multiset_axioms;

    let cs = comparisons_spec(ps);
    let fs = failures_spec(ps);
    let nb = new_benches_spec(ps);
    let sec = crate::overlap::seconds(ps);
    if ps.len() == 0 {
        assert(news_of(cs) =~= Seq::<BenchmarkView>::empty());
        assert((news_of(cs) + fs + nb) =~= Seq::<BenchmarkView>::empty());
        assert(sec =~= Seq::<BenchmarkView>::empty());
    } else {
        let rest = ps.drop_first();
        lemma_pairs_partition(rest);
        let cs0 = comparisons_spec(rest);
        let fs0 = failures_spec(rest);
        let nb0 = new_benches_spec(rest);
        let sec0 = crate::overlap::seconds(rest);
        let x = ps[0].1;
        assert(sec =~= seq![x] + sec0);
        crate::overlap::lemma_to_multiset_add(seq![x], sec0);
        crate::overlap::lemma_to_multiset_add(news_of(cs0) + fs0, nb0);
        crate::overlap::lemma_to_multiset_add(news_of(cs0), fs0);
        crate::overlap::lemma_to_multiset_add(news_of(cs) + fs, nb);
        crate::overlap::lemma_to_multiset_add(news_of(cs), fs);
        crate::overlap::lemma_to_multiset_add(seq![x], news_of(cs0));
        crate::overlap::lemma_to_multiset_add(seq![x], fs0);
        crate::overlap::lemma_to_multiset_add(seq![x], nb0);
        if !(ps[0].1.status is Measured) {
            assert(cs == cs0 && nb == nb0);
            assert(fs =~= seq![x] + fs0);
            assert((news_of(cs) + fs + nb).to_multiset() =~= sec.to_multiset());
        } else if !(ps[0].0.status is Measured) {
            assert(cs == cs0 && fs == fs0);
            assert(nb =~= seq![x] + nb0);
            assert((news_of(cs) + fs + nb).to_multiset() =~= sec.to_multiset());
        } else {
            assert(fs == fs0 && nb == nb0);
            assert(cs =~= seq![compare_view(ps[0].0, ps[0].1)] + cs0);
            assert(news_of(cs) =~= seq![x] + news_of(cs0));
            assert((news_of(cs) + fs + nb).to_multiset() =~= sec.to_multiset());
        }
    }
}

/// An old-run record whose name is absent from the sorted new run is
/// never compared: it lands in the unpaired-old list exactly as often
/// as the sorted old run holds it, and no comparison has it as its old
/// side.
pub proof fn lemma_paired_unmatched_old(
    r: PairedBenchmarks,
    so: Seq<BenchmarkView>,
    sn: Seq<BenchmarkView>,
    b: BenchmarkView,
)
    requires
        paired_matches(r, so, sn),
        forall|j: int| 0 <= j < sn.len() ==> (#[trigger] sn[j]).name != b.name,
    ensures
        r.unpaired_old_seq().to_multiset().count(b) == so.to_multiset().count(b),
        forall|i: int| 0 <= i < r.cmps_seq().len() ==> (#[trigger] r.cmps_seq()[i]).old != b,
{
    let ps = overlap_spec(so, sn).1;
    crate::overlap::lemma_overlap_unmatched_left(so, sn, b);
    lemma_comparisons_from_pairs(ps);
    assert forall|i: int| 0 <= i < r.cmps_seq().len() implies (#[trigger] r.cmps_seq()[i]).old
        != b by {
        assert(r.cmps_seq() == comparisons_spec(ps));
        let j = choose|j: int|
            0 <= j < ps.len() && (ps[j]).0.status is Measured && ps[j].1.status is Measured
                && comparisons_spec(ps)[i] == compare_view(ps[j].0, ps[j].1);
        assert(ps[j].0 != b);
        assert(r.cmps_seq()[i].old == ps[j].0);
    }
}

/// A pair whose new side failed is reported under the failures and kept
/// out of the comparisons, which join only measured records.
pub proof fn lemma_paired_failure_reported(
    r: PairedBenchmarks,
    so: Seq<BenchmarkView>,
    sn: Seq<BenchmarkView>,
    j: int,
)
    requires
        paired_matches(r, so, sn),
        0 <= j < overlap_spec(so, sn).1.len(),
        !(overlap_spec(so, sn).1[j].1.status is Measured),
    ensures
        r.failed_seq().contains(overlap_spec(so, sn).1[j].1),
        forall|i: int|
            0 <= i < r.cmps_seq().len() ==> (#[trigger] r.cmps_seq()[i]).old.status is Measured
                && r.cmps_seq()[i].new.status is Measured,
{
    let ps = overlap_spec(so, sn).1;
    lemma_failures_from_pairs(ps);
    lemma_comparisons_from_pairs(ps);
    assert forall|i: int|
        0 <= i < r.cmps_seq().len() implies (#[trigger] r.cmps_seq()[i]).old.status is Measured
        && r.cmps_seq()[i].new.status is Measured by {
        assert(r.cmps_seq() == comparisons_spec(ps));
        let j0 = choose|j0: int|
            0 <= j0 < ps.len() && (ps[j0]).0.status is Measured && ps[j0].1.status is Measured
                && comparisons_spec(ps)[i] == compare_view(ps[j0].0, ps[j0].1);
        assert(r.cmps_seq()[i].old == ps[j0].0);
        assert(r.cmps_seq()[i].new == ps[j0].1);
    }
}

/// A set of paired benchmarks, along with the records left unpaired and
/// the pairs set aside because one side failed.
pub struct PairedBenchmarks {
    cmps: Vec<Comparison>,
    failed: Vec<Benchmark>,
    benched_new: Vec<Benchmark>,
    unpaired_old: Vec<Benchmark>,
    unpaired_new: Vec<Benchmark>,
}

impl PairedBenchmarks {
    pub closed spec fn cmps_seq(&self) -> Seq<ComparisonView> {
        self.cmps.deep_view()
    }

    pub closed spec fn failed_seq(&self) -> Seq<BenchmarkView> {
        self.failed.deep_view()
    }

    pub closed spec fn benched_new_seq(&self) -> Seq<BenchmarkView> {
        self.benched_new.deep_view()
    }

    pub closed spec fn unpaired_old_seq(&self) -> Seq<BenchmarkView> {
        self.unpaired_old.deep_view()
    }

    pub closed spec fn unpaired_new_seq(&self) -> Seq<BenchmarkView> {
        self.unpaired_new.deep_view()
    }

    /// All pairwise benchmark comparisons.
    pub fn comparisons(&self) -> (r: &Vec<Comparison>)
        ensures
            r.deep_view() == self.cmps_seq(),
    {
        &self.cmps
    }

    /// The benchmarks of the old set with no counterpart in the new set.
    pub fn missing_old(&self) -> (r: &Vec<Benchmark>)
        ensures
            r.deep_view() == self.unpaired_old_seq(),
    {
        &self.unpaired_old
    }

    /// The benchmarks of the new set with no counterpart in the old set.
    pub fn missing_new(&self) -> (r: &Vec<Benchmark>)
        ensures
            r.deep_view() == self.unpaired_new_seq(),
    {
        &self.unpaired_new
    }

    /// The benchmarks that passed in the old set and failed in the new.
    pub fn failures(&self) -> (r: &Vec<Benchmark>)
        ensures
            r.deep_view() == self.failed_seq(),
    {
        &self.failed
    }

    /// The benchmarks that failed in the old set and passed in the new.
    pub fn new_benchmarks(&self) -> (r: &Vec<Benchmark>)
        ensures
            r.deep_view() == self.benched_new_seq(),
    {
        &self.benched_new
    }
}

} // verus!
