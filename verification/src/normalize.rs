//! Name normalization: record names can be kept as they are, stripped
//! of a fixed prefix, or stripped of the first match of a compiled
//! pattern, so that records from differently-named sources can be
//! recognized as the same benchmark.
use crate::benchmark::{Benchmark, BenchmarkView};
use crate::text::push_char;
use vstd::prelude::*;

verus! {

#[verifier::external_type_specification]
#[verifier::external_body]
pub struct ExRegex(regex::Regex);

#[verifier::external_type_specification]
#[verifier::external_body]
pub struct ExRegexError(regex::Error);

/// Whether the regex engine accepts `p` as a pattern: compilation is
/// deterministic and depends on the pattern text alone.
pub uninterp spec fn pattern_accepted(p: Seq<char>) -> bool;

/// The text with the leftmost match of pattern `p` removed, and the
/// text itself when nothing matches: a function of the pattern and the
/// text alone.
pub uninterp spec fn strip_first_match(p: Seq<char>, text: Seq<char>) -> Seq<char>;

/// Relies on `regex::Regex::new`: it compiles a valid pattern within the
/// default size limit and returns an error otherwise, deterministically
/// in the pattern.
#[verifier::external_body]
fn regex_compile(p: &str) -> (r: Result<regex::Regex, regex::Error>)
    ensures
        (r is Ok) == pattern_accepted(p@),
{
    regex::Regex::new(p)
}

/// A compiled name-stripping pattern, kept with its source text.
pub struct Pattern {
    re: regex::Regex,
    text: String,
}

/// An invalid normalization pattern, carrying the engine's error value
/// for the caller to report.
#[derive(Debug)]
pub struct PatternError {
    pub cause: regex::Error,
}

impl Pattern {
    /// The pattern's source text.
    pub closed spec fn pat(&self) -> Seq<char> {
        self.text@
    }

    /// Compile a pattern. An invalid pattern is a configuration error,
    /// reported before any comparison work starts.
    pub fn new(p: &str) -> (r: Result<Pattern, PatternError>)
        ensures
            (r is Ok) == pattern_accepted(p@),
            r matches Ok(pt) ==> pt.pat() == p@,
    {
        match regex_compile(p) {
            Ok(re) => Ok(Pattern { re: re, text: p.to_owned() }),
            Err(e) => Err(PatternError { cause: e }),
        }
    }

    /// Relies on `regex::Regex::replace` with an empty replacement: it
    /// removes the leftmost match of `self.re` — which `Pattern::new`
    /// compiled from `self.text` — and hands the text back unchanged
    /// when nothing matches; the result depends on the pattern and the
    /// text alone.
    #[verifier::external_body]
    fn strip_exec(&self, text: &str) -> (r: String)
        ensures
            r@ == strip_first_match(self.pat(), text@),
    {
        self.re.replace(text, "").into_owned()
    }
}

/// How a record name is rewritten before matching.
pub enum NormalizationRule {
    /// Leave names as they are.
    Keep,
    /// Remove this prefix from the names that start with it; a name
    /// without the prefix stays unchanged, and the caller decides
    /// whether to keep such a record at all.
    StripPrefix(String),
    /// Remove the first match of this pattern, anywhere in the name.
    StripPattern(Pattern),
}

/// Whether `p` is a prefix of `s`.
pub fn str_starts_with(p: &str, s: &str) -> (r: bool)
    ensures
        r == p@.is_prefix_of(s@),
{
    let np = p.unicode_len();
    let ns = s.unicode_len();
    if np > ns {
        proof {
            assert(!p@.is_prefix_of(s@));
        }
        return false;
    }
    let mut i: usize = 0;
    while i < np
        invariant
            i <= np,
            np == p@.len(),
            np <= s@.len(),
            forall|j: int| 0 <= j < i ==> p@[j] == s@[j],
        decreases np - i,
    {
        if p.get_char(i) != s.get_char(i) {
            proof {
                assert(p@[i as int] != s@[i as int]);
                assert(s@.subrange(0, p@.len() as int)[i as int] == s@[i as int]);
            }
            return false;
        }
        i = i + 1;
    }
    proof {
        assert(p@ =~= s@.subrange(0, p@.len() as int));
    }
    true
}

/// The suffix of `s` from character position `k` on.
pub fn str_skip(s: &str, k: usize) -> (r: String)
    requires
        k <= s@.len(),
    ensures
        r@ == s@.skip(k as int),
{
    let n = s.unicode_len();
    let mut out = String::new();
    let mut i: usize = k;
    proof {
        assert(out@ =~= s@.subrange(k as int, k as int));
    }
    while i < n
        invariant
            k <= i <= n,
            n == s@.len(),
            out@ == s@.subrange(k as int, i as int),
        decreases n - i,
    {
        push_char(&mut out, s.get_char(i));
        i = i + 1;
        proof {
            assert(s@.subrange(k as int, i as int) =~= s@.subrange(k as int, i as int - 1).push(
                s@[i as int - 1],
            ));
        }
    }
    proof {
        assert(s@.subrange(k as int, n as int) =~= s@.skip(k as int));
    }
    out
}

/// What normalization does to one name.
pub open spec fn normalize_spec(name: Seq<char>, rule: NormalizationRule) -> Seq<char> {
    match rule {
        NormalizationRule::Keep => name,
        NormalizationRule::StripPrefix(p) => if p@.is_prefix_of(name) {
            name.skip(p@.len() as int)
        } else {
            name
        },
        NormalizationRule::StripPattern(pt) => strip_first_match(pt.pat(), name),
    }
}

/// Rewrite one record name under the given rule.
pub fn normalize(name: &str, rule: &NormalizationRule) -> (r: String)
    ensures
        r@ == normalize_spec(name@, *rule),
{
    match rule {
        NormalizationRule::Keep => {
            let mut out = String::new();
            out.append(name);
            out
        },
        NormalizationRule::StripPrefix(p) => {
            if str_starts_with(p.as_str(), name) {
                str_skip(name, p.as_str().unicode_len())
            } else {
                let mut out = String::new();
                out.append(name);
                out
            }
        },
        NormalizationRule::StripPattern(pt) => pt.strip_exec(name),
    }
}

/// A record with its name rewritten.
pub open spec fn with_name(b: BenchmarkView, n: Seq<char>) -> BenchmarkView {
    BenchmarkView {
        name: n,
        ns: b.ns,
        variance: b.variance,
        throughput: b.throughput,
        status: b.status,
    }
}

/// Splitting one run of records between two prefixes: a record whose
/// name starts with the old prefix goes to the old side with the prefix
/// removed; otherwise, one whose name starts with the new prefix goes
/// to the new side with the prefix removed; all others are dropped.
pub open spec fn split_spec(v: Seq<BenchmarkView>, po: Seq<char>, pn: Seq<char>) -> (
    Seq<BenchmarkView>,
    Seq<BenchmarkView>,
)
    decreases v.len(),
{
    if v.len() == 0 {
        (Seq::empty(), Seq::empty())
    } else {
        let rest = split_spec(v.drop_first(), po, pn);
        let b = v[0];
        if po.is_prefix_of(b.name) {
            (seq![with_name(b, b.name.skip(po.len() as int))] + rest.0, rest.1)
        } else if pn.is_prefix_of(b.name) {
            (rest.0, seq![with_name(b, b.name.skip(pn.len() as int))] + rest.1)
        } else {
            rest
        }
    }
}

/// Split the records of one report between the two sides by name
/// prefix, as [`split_spec`] describes.
pub fn split_benchmarks(vec: Vec<Benchmark>, arg_old: &str, arg_new: &str) -> (r: (
    Vec<Benchmark>,
    Vec<Benchmark>,
))
    ensures
        r.0.deep_view() == split_spec(vec.deep_view(), arg_old@, arg_new@).0,
        r.1.deep_view() == split_spec(vec.deep_view(), arg_old@, arg_new@).1,
{
    let ghost v0 = vec.deep_view();
    let mut vec = vec;
    let mut b_old: Vec<Benchmark> = Vec::new();
    let mut b_new: Vec<Benchmark> = Vec::new();
    while vec.len() > 0
        invariant
            split_spec(v0, arg_old@, arg_new@).0 =~= b_old.deep_view() + split_spec(
                vec.deep_view(),
                arg_old@,
                arg_new@,
            ).0,
            split_spec(v0, arg_old@, arg_new@).1 =~= b_new.deep_view() + split_spec(
                vec.deep_view(),
                arg_old@,
                arg_new@,
            ).1,
        decreases vec.len(),
    {
        let ghost vv = vec.deep_view();
        let mut bench = vec.remove(0);
        proof {
            assert(vec.deep_view() =~= vv.drop_first());
            assert(vv[0] == bench@);
        }
        if str_starts_with(arg_old, bench.name.as_str()) {
            let stripped = str_skip(bench.name.as_str(), arg_old.unicode_len());
            bench.name = stripped;
            proof {
                assert(bench@ =~= with_name(vv[0], vv[0].name.skip(arg_old@.len() as int)));
            }
            b_old.push(bench);
        } else if str_starts_with(arg_new, bench.name.as_str()) {
            let stripped = str_skip(bench.name.as_str(), arg_new.unicode_len());
            bench.name = stripped;
            proof {
                assert(bench@ =~= with_name(vv[0], vv[0].name.skip(arg_new@.len() as int)));
            }
            b_new.push(bench);
        }
    }
    proof {
        assert(split_spec(vec.deep_view(), arg_old@, arg_new@).0 =~= Seq::<BenchmarkView>::empty());
        assert(split_spec(vec.deep_view(), arg_old@, arg_new@).1 =~= Seq::<BenchmarkView>::empty());
        assert(b_old.deep_view() =~= b_old.deep_view() + Seq::<BenchmarkView>::empty());
        assert(b_new.deep_view() =~= b_new.deep_view() + Seq::<BenchmarkView>::empty());
    }
    (b_old, b_new)
}

} // verus!
