//! The report-line grammar: recognizing measured and failed benchmark
//! lines and reading their fields.
use crate::benchmark::{
    spec_line, Benchmark, BenchmarkView, FailedMsg, FailedMsgView, Status, StatusView,
};
use crate::normalize::str_starts_with;
use crate::text::{
    chars_eq_str, chars_to_string, is_ws_char, lemma_tokens_of_token_prefix,
    lemma_tokens_of_ws_prefix, to_chars, token_shaped, tokenize, tokens_of, ws_char,
};
use crate::utils::{
    dec_rep, keep_not, lemma_dec_rep_correct, lemma_digit_not_special, lemma_filter_all,
    num_token_value, parse_num_token,
};
use vstd::prelude::*;

verus! {

/// The rejection returned for a line that matches neither recognized
/// line shape.
#[derive(Debug)]
pub struct NotARecord;

/// The record read from a measured line
/// `test <name> ... bench: <ns> ns/iter (+/- <variance>) [= <throughput> MB/s]`,
/// where each numeric field consists of decimal digits with optional
/// grouping commas and must fit in a `u64`.
pub open spec fn spec_parse_measured(s: Seq<char>) -> Option<BenchmarkView> {
    let ts = tokens_of(s);
    if ts.len() != 8 && ts.len() != 11 {
        None
    } else if !(ts[0] == "test"@ && ts[2] == "..."@ && ts[3] == "bench:"@ && ts[5] == "ns/iter"@
        && ts[6] == "(+/-"@) {
        None
    } else if ts.len() == 11 && !(ts[8] == "="@ && ts[10] == "MB/s"@) {
        None
    } else if ts[7].len() == 0 || ts[7].last() != ')' {
        None
    } else {
        match (num_token_value(ts[4]), num_token_value(ts[7].drop_last())) {
            (Some(ns), Some(variance)) => {
                if ts.len() == 8 {
                    Some(
                        BenchmarkView {
                            name: ts[1],
                            ns: ns,
                            variance: variance,
                            throughput: None,
                            status: StatusView::Measured,
                        },
                    )
                } else {
                    match num_token_value(ts[9]) {
                        Some(t) => Some(
                            BenchmarkView {
                                name: ts[1],
                                ns: ns,
                                variance: variance,
                                throughput: Some(t),
                                status: StatusView::Measured,
                            },
                        ),
                        None => None,
                    }
                }
            },
            _ => None,
        }
    }
}

/// The record read from a failure line `test <name> ... FAILED`.
pub open spec fn spec_parse_failed(s: Seq<char>) -> Option<BenchmarkView> {
    let ts = tokens_of(s);
    if ts.len() == 4 && ts[0] == "test"@ && ts[2] == "..."@ && ts[3] == "FAILED"@ {
        Some(
            BenchmarkView {
                name: ts[1],
                ns: 0,
                variance: 0,
                throughput: None,
                status: StatusView::Failed(None),
            },
        )
    } else {
        None
    }
}

/// What a single report line yields: a failure marker, a measured
/// record, or nothing. The two shapes need different token counts, so at
/// most one applies.
pub open spec fn spec_parse_line(s: Seq<char>) -> Option<BenchmarkView> {
    if spec_parse_failed(s) is Some {
        spec_parse_failed(s)
    } else {
        spec_parse_measured(s)
    }
}

/// A space followed by `rest` has the same tokens as `rest`.
proof fn lemma_tokens_space(rest: Seq<char>)
    ensures
        tokens_of(" "@ + rest) == tokens_of(rest),
{
    reveal_strlit(" ");
    assert(" "@ =~= seq![' ']);
    lemma_tokens_of_ws_prefix(' ', rest);
    assert(" "@ + rest =~= seq![' '] + rest);
}

/// A token, a space and a remainder tokenize as the token followed by
/// the remainder's tokens.
proof fn lemma_tokens_tok_sp(t: Seq<char>, rest: Seq<char>)
    requires
        token_shaped(t),
    ensures
        tokens_of(t + (" "@ + rest)) == seq![t] + tokens_of(rest),
{
    reveal_strlit(" ");
    assert(" "@ =~= seq![' ']);
    assert((" "@ + rest).len() > 0 && is_ws_char((" "@ + rest)[0]));
    lemma_tokens_of_token_prefix(t, " "@ + rest);
    lemma_tokens_space(rest);
}

/// The decimal rendering of a number is a well-formed token whose
/// numeric reading gives the number back.
proof fn lemma_num_token_of_dec(n: u64)
    ensures
        num_token_value(dec_rep(n as nat)) == Some(n),
        token_shaped(dec_rep(n as nat)),
        forall|j: int|
            0 <= j < dec_rep(n as nat).len() ==> (is_digit_or_comma(
                #[trigger] dec_rep(n as nat)[j],
            )),
{
    let d = dec_rep(n as nat);
    lemma_dec_rep_correct(n as nat);
    assert forall|j: int| 0 <= j < d.len() implies !is_ws_char(d[j]) && d[j] != ','
        && is_digit_or_comma(d[j]) by {
        assert(crate::text::is_digit_char(d[j]));
        lemma_digit_not_special(d[j]);
    }
    assert forall|j: int| 0 <= j < d.len() implies keep_not(',')(d[j]) by {}
    lemma_filter_all(d, keep_not(','));
}

/// Digit-or-comma characters, as the numeric tokens of the grammar use
/// them.
pub open spec fn is_digit_or_comma(c: char) -> bool {
    crate::text::is_digit_char(c) || c == ','
}

/// Round trip: rendering a measured benchmark as its canonical report
/// line and parsing that line back yields the same record, for every
/// name that is a single whitespace-free word and any combination of
/// nanosecond, variance and optional throughput figures.
#[verifier::rlimit(100)]
#[verifier::spinoff_prover]
pub proof fn lemma_round_trip(b: BenchmarkView)
    requires
        token_shaped(b.name),
        b.status is Measured,
    ensures
        spec_parse_line(spec_line(b)) == Some(b),
{
    reveal_strlit("test ");
    reveal_strlit(" ... bench: ");
    reveal_strlit(" ns/iter (+/- ");
    reveal_strlit(")");
    reveal_strlit(" = ");
    reveal_strlit(" MB/s");
    reveal_strlit("test");
    reveal_strlit("...");
    reveal_strlit("bench:");
    reveal_strlit("ns/iter");
    reveal_strlit("(+/-");
    reveal_strlit("=");
    reveal_strlit("MB/s");
    reveal_strlit(" ");
    let line = spec_line(b);
    let dns = dec_rep(b.ns as nat);
    let dvar = dec_rep(b.variance as nat);
    lemma_num_token_of_dec(b.ns);
    lemma_num_token_of_dec(b.variance);
    assert(token_shaped("test"@));
    assert(token_shaped("..."@));
    assert(token_shaped("bench:"@));
    assert(token_shaped("ns/iter"@));
    assert(token_shaped("(+/-"@));
    assert(token_shaped("="@));
    assert(token_shaped("MB/s"@));
    let dv8 = dvar + ")"@;
    assert(token_shaped(dv8)) by {
        assert forall|j: int| 0 <= j < dv8.len() implies !is_ws_char(dv8[j]) by {
            if j < dvar.len() {
                assert(dv8[j] == dvar[j]);
            } else {
                assert(dv8[j] == ')');
            }
        }
    }
    assert(dv8.last() == ')');
    assert(dv8.drop_last() =~= dvar);
    // The tail of the line after the variance token, empty or starting at
    // the throughput part.
    let tail = match b.throughput {
        Some(t) => " "@ + ("="@ + (" "@ + (dec_rep(t as nat) + (" "@ + ("MB/s"@ + Seq::<
            char,
        >::empty()))))),
        None => Seq::<char>::empty(),
    };
    let tail_tokens = match b.throughput {
        Some(t) => seq!["="@, dec_rep(t as nat), "MB/s"@],
        None => Seq::<Seq<char>>::empty(),
    };
    assert(tokens_of(tail) == tail_tokens) by {
        match b.throughput {
            Some(t) => {
                let dt = dec_rep(t as nat);
                lemma_num_token_of_dec(t);
                assert(tokens_of("MB/s"@ + Seq::<char>::empty()) == seq!["MB/s"@] + tokens_of(
                    Seq::<char>::empty(),
                )) by {
                    lemma_tokens_of_token_prefix("MB/s"@, Seq::<char>::empty());
                }
                assert(tokens_of(Seq::<char>::empty()) == Seq::<Seq<char>>::empty());
                lemma_tokens_space("MB/s"@ + Seq::<char>::empty());
                lemma_tokens_tok_sp(dt, "MB/s"@ + Seq::<char>::empty());
                lemma_tokens_tok_sp("="@, dt + (" "@ + ("MB/s"@ + Seq::<char>::empty())));
                lemma_tokens_space(
                    "="@ + (" "@ + (dt + (" "@ + ("MB/s"@ + Seq::<char>::empty())))),
                );
                assert(tokens_of(tail) =~= tail_tokens);
            },
            None => {
            },
        }
    }
    // Build the line, suffix by suffix, and collect its tokens.
    let s8 = dv8 + tail;
    assert(tokens_of(s8) == seq![dv8] + tokens_of(tail)) by {
        assert(tail.len() == 0 || is_ws_char(tail[0]));
        lemma_tokens_of_token_prefix(dv8, tail);
    }
    let s7 = "(+/-"@ + (" "@ + s8);
    assert(tokens_of(s7) == seq!["(+/-"@] + tokens_of(s8)) by {
        lemma_tokens_tok_sp("(+/-"@, s8);
    }
    let s6 = "ns/iter"@ + (" "@ + s7);
    assert(tokens_of(s6) == seq!["ns/iter"@] + tokens_of(s7)) by {
        lemma_tokens_tok_sp("ns/iter"@, s7);
    }
    let s5 = dns + (" "@ + s6);
    assert(tokens_of(s5) == seq![dns] + tokens_of(s6)) by {
        lemma_tokens_tok_sp(dns, s6);
    }
    let s4 = "bench:"@ + (" "@ + s5);
    assert(tokens_of(s4) == seq!["bench:"@] + tokens_of(s5)) by {
        lemma_tokens_tok_sp("bench:"@, s5);
    }
    let s3 = "..."@ + (" "@ + s4);
    assert(tokens_of(s3) == seq!["..."@] + tokens_of(s4)) by {
        lemma_tokens_tok_sp("..."@, s4);
    }
    let s1 = b.name + (" "@ + s3);
    assert(tokens_of(s1) == seq![b.name] + tokens_of(s3)) by {
        lemma_tokens_tok_sp(b.name, s3);
    }
    let s0 = "test"@ + (" "@ + s1);
    assert(tokens_of(s0) == seq!["test"@] + tokens_of(s1)) by {
        lemma_tokens_tok_sp("test"@, s1);
    }
    assert(line =~= s0);
    let ts = tokens_of(line);
    match b.throughput {
        Some(t) => {
            assert(ts =~= seq![
                "test"@,
                b.name,
                "..."@,
                "bench:"@,
                dns,
                "ns/iter"@,
                "(+/-"@,
                dv8,
                "="@,
                dec_rep(t as nat),
                "MB/s"@,
            ]);
            assert(ts.len() == 11);
            lemma_num_token_of_dec(t);
        },
        None => {
            assert(ts =~= seq![
                "test"@,
                b.name,
                "..."@,
                "bench:"@,
                dns,
                "ns/iter"@,
                "(+/-"@,
                dv8,
            ]);
            assert(ts.len() == 8);
        },
    }
    assert(spec_parse_failed(line) is None);
    assert(spec_parse_measured(line) matches Some(v) && v =~= b);
}

/// A copy of the vector without its last element.
fn vec_drop_last(v: &Vec<char>) -> (r: Vec<char>)
    requires
        v@.len() > 0,
    ensures
        r@ == v@.drop_last(),
{
    let mut r: Vec<char> = Vec::new();
    let n = v.len() - 1;
    let mut i: usize = 0;
    while i < n
        invariant
            i <= n,
            n == v@.len() - 1,
            r@ == v@.take(i as int),
        decreases n - i,
    {
        r.push(v[i]);
        i = i + 1;
        proof {
            assert(v@.take(i as int) =~= v@.take(i as int - 1).push(v@[i as int - 1]));
        }
    }
    proof {
        assert(v@.take(n as int) =~= v@.drop_last());
    }
    r
}

/// Parse one report line into a benchmark record, or reject it.
///
/// A line is accepted exactly when it matches the measured or the failed
/// line shape, and the returned record carries exactly the fields the
/// grammar reads out of it.
pub fn parse_line(line: &str) -> (r: Result<Benchmark, NotARecord>)
    ensures
        r matches Ok(b) ==> spec_parse_line(line@) == Some(b@),
        r is Err ==> spec_parse_line(line@) is None,
{
    let ts = tokenize(line);
    let ghost toks = tokens_of(line@);
    proof {
        assert(ts@.len() == toks.len());
        assert(forall|k: int| 0 <= k < ts@.len() ==> toks[k] == #[trigger] ts@[k].deep_view());
        assert(forall|k: int| 0 <= k < ts@.len() ==> #[trigger] ts@[k].deep_view() =~= ts@[k]@);
    }
    if ts.len() == 4 {
        if chars_eq_str(&ts[0], "test") && chars_eq_str(&ts[2], "...") && chars_eq_str(
            &ts[3],
            "FAILED",
        ) {
            let name = chars_to_string(&ts[1]);
            let b = Benchmark {
                name: name,
                ns: 0,
                variance: 0,
                throughput: None,
                status: Status::Failed(None),
            };
            proof {
                assert(spec_parse_failed(line@) matches Some(v) && v =~= b@);
            }
            return Ok(b);
        }
        proof {
            assert(spec_parse_failed(line@) is None);
            assert(spec_parse_measured(line@) is None);
        }
        return Err(NotARecord);
    }
    proof {
        assert(spec_parse_failed(line@) is None);
    }
    if !(ts.len() == 8 || ts.len() == 11) {
        return Err(NotARecord);
    }
    if !(chars_eq_str(&ts[0], "test") && chars_eq_str(&ts[2], "...") && chars_eq_str(
        &ts[3],
        "bench:",
    ) && chars_eq_str(&ts[5], "ns/iter") && chars_eq_str(&ts[6], "(+/-")) {
        return Err(NotARecord);
    }
    if ts.len() == 11 && !(chars_eq_str(&ts[8], "=") && chars_eq_str(&ts[10], "MB/s")) {
        return Err(NotARecord);
    }
    let var_tok_len = ts[7].len();
    if var_tok_len == 0 || ts[7][var_tok_len - 1] != ')' {
        proof {
            assert(var_tok_len > 0 ==> toks[7].last() == ts@[7]@.last());
        }
        return Err(NotARecord);
    }
    let var_digits = vec_drop_last(&ts[7]);
    proof {
        assert(var_digits@ =~= toks[7].drop_last());
        assert(toks[7].last() == ')');
    }
    let ns = match parse_num_token(&ts[4]) {
        Some(v) => v,
        None => {
            return Err(NotARecord);
        },
    };
    let variance = match parse_num_token(&var_digits) {
        Some(v) => v,
        None => {
            return Err(NotARecord);
        },
    };
    let throughput: Option<u64> = if ts.len() == 11 {
        match parse_num_token(&ts[9]) {
            Some(v) => Some(v),
            None => {
                return Err(NotARecord);
            },
        }
    } else {
        None
    };
    let name = chars_to_string(&ts[1]);
    let b = Benchmark {
        name: name,
        ns: ns,
        variance: variance,
        throughput: throughput,
        status: Status::Measured,
    };
    proof {
        assert(spec_parse_measured(line@) matches Some(v) && v =~= b@);
    }
    Ok(b)
}

/// The section name announced by a failure-detail heading
/// `---- <name> stdout ----`.
pub open spec fn spec_parse_section(s: Seq<char>) -> Option<Seq<char>> {
    let ts = tokens_of(s);
    if ts.len() == 4 && ts[0] == "----"@ && ts[2] == "stdout"@ && ts[3] == "----"@ {
        Some(ts[1])
    } else {
        None
    }
}

/// The thread name and message of a panic diagnostic line
/// `thread '<thread>' panicked at '<message>'`, possibly followed by
/// trailing text after the message's closing quote. The thread name is
/// a single whitespace-free word ending at the first quote; the message
/// is everything up to the last quote of the line and is nonempty.
pub open spec fn spec_parse_panic(s: Seq<char>) -> Option<(Seq<char>, Seq<char>)> {
    if !"thread '"@.is_prefix_of(s) {
        None
    } else {
        let after = s.skip(8);
        match after.index_of_first('\'') {
            None => None,
            Some(q1) => {
                let thread = after.take(q1);
                if !token_shaped(thread) {
                    None
                } else if !" panicked at '"@.is_prefix_of(after.skip(q1 + 1)) {
                    None
                } else {
                    let rest = after.skip(q1 + 1).skip(14);
                    match rest.index_of_last('\'') {
                        None => None,
                        Some(qe) => if qe >= 1 {
                            Some((thread, rest.take(qe)))
                        } else {
                            None
                        },
                    }
                }
            },
        }
    }
}

/// Whether the characters of `lit` occur in `cs` starting at `pos`.
fn chars_match_at(cs: &Vec<char>, pos: usize, lit: &str) -> (r: bool)
    requires
        pos <= cs@.len(),
    ensures
        r == lit@.is_prefix_of(cs@.skip(pos as int)),
{
    let n = lit.unicode_len();
    let total = cs.len();
    if n > total - pos {
        proof {
            assert(!lit@.is_prefix_of(cs@.skip(pos as int)));
        }
        return false;
    }
    let mut i: usize = 0;
    while i < n
        invariant
            i <= n,
            n == lit@.len(),
            total == cs@.len(),
            pos + n <= total,
            forall|j: int| 0 <= j < i ==> lit@[j] == cs@[pos + j],
        decreases n - i,
    {
        if lit.get_char(i) != cs[pos + i] {
            proof {
                let tail = cs@.skip(pos as int);
                assert(tail.subrange(0, lit@.len() as int)[i as int] == cs@[pos + i]);
            }
            return false;
        }
        i = i + 1;
    }
    proof {
        let tail = cs@.skip(pos as int);
        assert(lit@ =~= tail.subrange(0, lit@.len() as int));
    }
    true
}

/// A copy of `cs[from..to]`.
fn chars_slice(cs: &Vec<char>, from: usize, to: usize) -> (r: Vec<char>)
    requires
        from <= to <= cs@.len(),
    ensures
        r@ == cs@.subrange(from as int, to as int),
{
    let mut r: Vec<char> = Vec::new();
    let mut i: usize = from;
    proof {
        assert(r@ =~= cs@.subrange(from as int, from as int));
    }
    while i < to
        invariant
            from <= i <= to,
            to <= cs@.len(),
            r@ == cs@.subrange(from as int, i as int),
        decreases to - i,
    {
        r.push(cs[i]);
        i = i + 1;
        proof {
            assert(cs@.subrange(from as int, i as int) =~= cs@.subrange(
                from as int,
                i as int - 1,
            ).push(cs@[i as int - 1]));
        }
    }
    r
}

/// Parse a panic diagnostic line into its thread name and message.
pub fn parse_panic_line(line: &str) -> (r: Option<(String, String)>)
    ensures
        r matches Some(p) ==> spec_parse_panic(line@) == Some((p.0@, p.1@)),
        r is None ==> spec_parse_panic(line@) is None,
{
    if !str_starts_with("thread '", line) {
        return None;
    }
    proof {
        reveal_strlit("thread '");
        assert(line@.len() >= 8);
    }
    let cs = to_chars(line);
    let n = cs.len();
    let ghost after = line@.skip(8);
    // Find the quote that closes the thread name.
    let mut q: usize = 8;
    while q < n && cs[q] != '\''
        invariant
            8 <= q <= n,
            n == cs@.len(),
            cs@ == line@,
            forall|j: int| 8 <= j < q ==> cs@[j] != '\'',
        decreases n - q,
    {
        q = q + 1;
    }
    if q == n {
        proof {
            assert(forall|j: int| 0 <= j < after.len() ==> after[j] != '\'');
            assert(!after.contains('\'')) by {
                if after.contains('\'') {
                    let j = choose|j: int| 0 <= j < after.len() && after[j] == '\'';
                }
            }
            after.index_of_first_ensures('\'');
        }
        return None;
    }
    proof {
        assert(after[q - 8] == '\'');
        assert(after.contains('\''));
        after.index_of_first_ensures('\'');
        let idx = after.index_of_first('\'')->0;
        assert(idx <= q - 8) by {
            if idx > q - 8 {
                assert(after[q - 8] != '\'');
            }
        }
        assert(idx >= q - 8) by {
            if idx < q - 8 {
                assert(cs@[8 + idx] != '\'');
            }
        }
        assert(after.index_of_first('\'') == Some(q as int - 8));
    }
    // The thread name must be a nonempty whitespace-free word.
    if q == 8 {
        return None;
    }
    let mut i: usize = 8;
    while i < q && !ws_char(cs[i])
        invariant
            8 <= i <= q <= n,
            n == cs@.len(),
            cs@ == line@,
            forall|j: int| 8 <= j < i ==> !is_ws_char(cs@[j]),
        decreases q - i,
    {
        i = i + 1;
    }
    if i < q {
        proof {
            assert(is_ws_char(cs@[i as int]));
            assert(after.take(q as int - 8)[i - 8] == cs@[i as int]);
            assert(!token_shaped(after.take(q as int - 8)));
        }
        return None;
    }
    proof {
        assert forall|j: int| 0 <= j < after.take(q as int - 8).len() implies !is_ws_char(
            #[trigger] after.take(q as int - 8)[j],
        ) by {
            assert(after.take(q as int - 8)[j] == cs@[8 + j]);
        }
        assert(token_shaped(after.take(q as int - 8)));
    }
    // The literal that separates the thread name from the message.
    if !chars_match_at(&cs, q + 1, " panicked at '") {
        proof {
            assert(cs@.skip(q as int + 1) =~= after.skip(q as int - 8 + 1));
        }
        return None;
    }
    proof {
        assert(cs@.skip(q as int + 1) =~= after.skip(q as int - 8 + 1));
    }
    proof {
        assert(" panicked at '"@.len() == 14) by {
            reveal_strlit(" panicked at '");
        }
        assert(q + 15 <= n);
    }
    let start = q + 15;
    let ghost rest = after.skip(q as int - 8 + 1).skip(14);
    proof {
        assert(rest =~= cs@.skip(start as int));
    }
    // Find the last quote of the line; the message ends there.
    let mut e: usize = n;
    while e > start && cs[e - 1] != '\''
        invariant
            start <= e <= n,
            n == cs@.len(),
            cs@ == line@,
            forall|j: int| e <= j < n ==> cs@[j] != '\'',
        decreases e,
    {
        e = e - 1;
    }
    if e == start {
        proof {
            assert(forall|j: int| 0 <= j < rest.len() ==> rest[j] != '\'');
            assert(!rest.contains('\'')) by {
                if rest.contains('\'') {
                    let j = choose|j: int| 0 <= j < rest.len() && rest[j] == '\'';
                }
            }
            rest.index_of_last_ensures('\'');
        }
        return None;
    }
    proof {
        assert(cs@[e - 1] == '\'');
        assert(rest[e - 1 - start] == '\'');
        assert(rest.contains('\''));
        rest.index_of_last_ensures('\'');
        let idx = rest.index_of_last('\'')->0;
        assert(idx >= e - 1 - start) by {
            if idx < e - 1 - start {
                assert(rest[e - 1 - start] != '\'');
            }
        }
        assert(idx <= e - 1 - start) by {
            if idx > e - 1 - start {
                assert(cs@[start + idx] != '\'');
            }
        }
        assert(rest.index_of_last('\'') == Some(e as int - 1 - start as int));
    }
    if e - 1 == start {
        return None;
    }
    let thread_chars = chars_slice(&cs, 8, q);
    let msg_chars = chars_slice(&cs, start, e - 1);
    let thread = chars_to_string(&thread_chars);
    let msg = chars_to_string(&msg_chars);
    proof {
        assert(thread@ =~= after.take(q as int - 8));
        assert(msg@ =~= rest.take(e as int - 1 - start as int));
    }
    Some((thread, msg))
}

/// Tracks a failure-detail section that has been opened by its heading
/// line and waits for the panic diagnostic that belongs to it.
pub struct FailedMsgBuilder {
    name: String,
}

impl FailedMsgBuilder {
    /// The name of the benchmark whose failure section is open.
    pub closed spec fn name_seq(&self) -> Seq<char> {
        self.name@
    }

    /// Open a failure section from its heading line.
    pub fn from_line(line: &str) -> (r: Result<FailedMsgBuilder, NotARecord>)
        ensures
            r matches Ok(b) ==> spec_parse_section(line@) == Some(b.name_seq()),
            r is Err ==> spec_parse_section(line@) is None,
    {
        let ts = tokenize(line);
        proof {
            assert(forall|k: int|
                0 <= k < ts@.len() ==> tokens_of(line@)[k] == #[trigger] ts@[k].deep_view());
            assert(forall|k: int| 0 <= k < ts@.len() ==> #[trigger] ts@[k].deep_view() =~= ts@[k]@);
        }
        if ts.len() == 4 && chars_eq_str(&ts[0], "----") && chars_eq_str(&ts[2], "stdout")
            && chars_eq_str(&ts[3], "----") {
            let name = chars_to_string(&ts[1]);
            Ok(FailedMsgBuilder { name: name })
        } else {
            Err(NotARecord)
        }
    }

    /// Close the section with its panic diagnostic line, attaching the
    /// panic message to the section's benchmark name.
    pub fn build(self, line: &str) -> (r: Result<FailedMsg, NotARecord>)
        ensures
            r matches Ok(m) ==> spec_parse_panic(line@) matches Some(p) && m@.name
                == self.name_seq() && m@.msg == p.1,
            r is Err ==> spec_parse_panic(line@) is None,
    {
        match parse_panic_line(line) {
            Some(p) => Ok(FailedMsg { name: self.name, msg: p.1 }),
            None => Err(NotARecord),
        }
    }
}

/// A benchmark with its status replaced.
pub open spec fn with_status(b: BenchmarkView, st: StatusView) -> BenchmarkView {
    BenchmarkView {
        name: b.name,
        ns: b.ns,
        variance: b.variance,
        throughput: b.throughput,
        status: st,
    }
}

/// A record to which a failure diagnostic named `nm` can still be
/// attached: it carries that name, failed, and has no diagnostic yet.
pub open spec fn attachable(b: BenchmarkView, nm: Seq<char>) -> bool {
    b.name == nm && b.status == StatusView::Failed(None::<FailedMsgView>)
}

/// The index of the first record a diagnostic named `nm` attaches to,
/// or -1 when there is none.
pub open spec fn find_attach(acc: Seq<BenchmarkView>, nm: Seq<char>) -> int
    decreases acc.len(),
{
    if acc.len() == 0 {
        -1
    } else if attachable(acc[0], nm) {
        0
    } else {
        let r = find_attach(acc.drop_first(), nm);
        if r < 0 {
            -1
        } else {
            1 + r
        }
    }
}

pub proof fn lemma_find_attach(acc: Seq<BenchmarkView>, nm: Seq<char>)
    ensures
        find_attach(acc, nm) == -1 ==> forall|j: int|
            0 <= j < acc.len() ==> !attachable(#[trigger] acc[j], nm),
        find_attach(acc, nm) >= 0 ==> 0 <= find_attach(acc, nm) < acc.len() && attachable(
            acc[find_attach(acc, nm)],
            nm,
        ) && forall|j: int| 0 <= j < find_attach(acc, nm) ==> !attachable(#[trigger] acc[j], nm),
    decreases acc.len(),
{
    if acc.len() > 0 && !attachable(acc[0], nm) {
        lemma_find_attach(acc.drop_first(), nm);
        assert(forall|j: int|
            1 <= j < acc.len() ==> #[trigger] acc[j] == acc.drop_first()[j - 1]);
    }
}

/// The record list after a panic message for section `nm` arrives: the
/// first failed record with that name and no diagnostic yet receives
/// the diagnostic; with no such record the list is unchanged.
pub open spec fn attach_spec(acc: Seq<BenchmarkView>, nm: Seq<char>, msg: Seq<char>) -> Seq<
    BenchmarkView,
> {
    let k = find_attach(acc, nm);
    if k < 0 {
        acc
    } else {
        acc.update(
            k,
            with_status(acc[k], StatusView::Failed(Some(FailedMsgView { name: nm, msg: msg }))),
        )
    }
}

/// The records collected from the first `n` report lines, and the name
/// of the failure section left open: each line in turn is read as a
/// benchmark line, as a failure-section heading (which opens a
/// section), or — while a section is open — as the panic diagnostic
/// that closes it and lands on the section's record; all other lines
/// are skipped.
pub open spec fn scan_state(lines: Seq<Seq<char>>, n: int) -> (Seq<BenchmarkView>, Option<
    Seq<char>,
>)
    decreases n,
{
    if n <= 0 {
        (Seq::empty(), None)
    } else {
        let prev = scan_state(lines, n - 1);
        let line = lines[n - 1];
        if spec_parse_line(line) is Some {
            (prev.0.push(spec_parse_line(line)->0), prev.1)
        } else if spec_parse_section(line) is Some {
            (prev.0, Some(spec_parse_section(line)->0))
        } else {
            match prev.1 {
                Some(nm) => match spec_parse_panic(line) {
                    Some(p) => (attach_spec(prev.0, nm, p.1), None),
                    None => prev,
                },
                None => prev,
            }
        }
    }
}

/// The name of the failure section an open builder waits on.
pub open spec fn open_name(open: Option<FailedMsgBuilder>) -> Option<Seq<char>> {
    match open {
        Some(b) => Some(b.name_seq()),
        None => None,
    }
}

/// Attach a scanned failure diagnostic to the record it names.
fn attach_msg(acc: &mut Vec<Benchmark>, fm: FailedMsg)
    ensures
        final(acc).deep_view() == attach_spec(old(acc).deep_view(), fm@.name, fm@.msg),
{
    let ghost av = acc.deep_view();
    let ghost nm = fm@.name;
    proof {
        lemma_find_attach(av, nm);
    }
    let n = acc.len();
    let mut k: usize = 0;
    loop
        invariant
            k <= n,
            n == acc@.len(),
            acc.deep_view() == av,
            nm == fm@.name,
            forall|j: int| 0 <= j < k ==> !attachable(#[trigger] av[j], nm),
        ensures
            k <= n,
            n == acc@.len(),
            acc.deep_view() == av,
            forall|j: int| 0 <= j < k ==> !attachable(#[trigger] av[j], nm),
            k < n ==> attachable(av[k as int], nm),
            k == n ==> forall|j: int| 0 <= j < n ==> !attachable(#[trigger] av[j], nm),
        decreases n - k,
    {
        if k == n {
            break ;
        }
        let same_name = acc[k].name.eq(&fm.name);
        let open_failed = match &acc[k].status {
            Status::Failed(m) => match m {
                None => true,
                Some(_) => false,
            },
            Status::Measured => false,
        };
        if same_name && open_failed {
            proof {
                assert(av[k as int] == acc@[k as int]@);
                assert(attachable(av[k as int], nm));
            }
            break ;
        }
        proof {
            assert(av[k as int] == acc@[k as int]@);
            assert(!attachable(av[k as int], nm));
        }
        k = k + 1;
    }
    if k == n {
        proof {
            assert(find_attach(av, nm) == -1) by {
                if find_attach(av, nm) >= 0 {
                    assert(attachable(av[find_attach(av, nm)], nm));
                }
            }
            assert(attach_spec(av, nm, fm@.msg) == av);
        }
        return ;
    }
    proof {
        assert(find_attach(av, nm) == k as int) by {
            let f = find_attach(av, nm);
            if f == -1 {
                assert(!attachable(av[k as int], nm));
            } else {
                if f < k as int {
                    assert(!attachable(av[f], nm));
                }
                if f > k as int {
                    assert(!attachable(av[k as int], nm));
                }
            }
        }
    }
    let old_b = acc.remove(k);
    let new_b = Benchmark {
        name: old_b.name,
        ns: old_b.ns,
        variance: old_b.variance,
        throughput: old_b.throughput,
        status: Status::Failed(Some(fm)),
    };
    acc.insert(k, new_b);
    proof {
        assert(acc.deep_view() =~~= attach_spec(av, nm, fm@.msg));
    }
}

/// Read a whole report: parse each line in order, keep the benchmark
/// records, and attach failure diagnostics to the failed records their
/// sections name, as [`scan_state`] describes.
pub fn parse_lines(lines: &Vec<String>) -> (r: Vec<Benchmark>)
    ensures
        r.deep_view() == scan_state(lines.deep_view(), lines@.len() as int).0,
{
    let ghost lv = lines.deep_view();
    let n = lines.len();
    let mut acc: Vec<Benchmark> = Vec::new();
    let mut open: Option<FailedMsgBuilder> = None;
    let mut i: usize = 0;
    while i < n
        invariant
            i <= n,
            n == lines@.len(),
            lv == lines.deep_view(),
            acc.deep_view() == scan_state(lv, i as int).0,
            open_name(open) == scan_state(lv, i as int).1,
        decreases n - i,
    {
        let line = &lines[i];
        proof {
            assert(lv[i as int] == lines@[i as int]@);
        }
        match parse_line(line.as_str()) {
            Ok(b) => {
                let ghost prev = acc.deep_view();
                acc.push(b);
                proof {
                    assert(acc.deep_view() =~~= prev.push(b@));
                }
            },
            Err(_) => {
                match FailedMsgBuilder::from_line(line.as_str()) {
                    Ok(bld) => {
                        open = Some(bld);
                    },
                    Err(_) => {
                        let panic_found = parse_panic_line(line.as_str());
                        let cur = open;
                        open = None;
                        match (cur, panic_found) {
                            (Some(bld), Some(_p)) => {
                                match bld.build(line.as_str()) {
                                    Ok(fm) => {
                                        attach_msg(&mut acc, fm);
                                    },
                                    Err(_) => {
                                        proof {
                                            assert(false);
                                        }
                                    },
                                }
                            },
                            (Some(bld), None) => {
                                open = Some(bld);
                            },
                            (None, _) => {},
                        }
                    },
                }
            },
        }
        i = i + 1;
    }
    acc
}

} // verus!
