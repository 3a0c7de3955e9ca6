//! Decimal formatting and parsing: rendering integers as digit strings,
//! grouping digits with a separator every three places, and reading
//! integers out of digit strings that may carry grouping commas.
use crate::text::{
    chars_to_string, digit_char, digit_val, is_digit_char, is_ws_char, push_char, to_chars,
};
use vstd::prelude::*;

verus! {

/// The decimal digit character for a value below ten.
pub open spec fn char_of_digit(d: nat) -> char {
    if d == 0 {
        '0'
    } else if d == 1 {
        '1'
    } else if d == 2 {
        '2'
    } else if d == 3 {
        '3'
    } else if d == 4 {
        '4'
    } else if d == 5 {
        '5'
    } else if d == 6 {
        '6'
    } else if d == 7 {
        '7'
    } else if d == 8 {
        '8'
    } else {
        '9'
    }
}

/// The plain decimal representation of a natural number, most significant
/// digit first, with no leading zeros (except for zero itself).
pub open spec fn dec_rep(n: nat) -> Seq<char>
    decreases n,
{
    if n < 10 {
        seq![char_of_digit(n)]
    } else {
        dec_rep(n / 10).push(char_of_digit(n % 10))
    }
}

/// The value of a digit string read most significant digit first.
pub open spec fn digits_value(s: Seq<char>) -> nat
    decreases s.len(),
{
    if s.len() == 0 {
        0nat
    } else {
        digits_value(s.drop_last()) * 10 + digit_val(s.last())
    }
}

pub open spec fn all_digits(s: Seq<char>) -> bool {
    forall|i: int| 0 <= i < s.len() ==> is_digit_char(s[i])
}

/// The predicate that keeps every character other than `sep`.
pub open spec fn keep_not(sep: char) -> spec_fn(char) -> bool {
    |c: char| c != sep
}

/// The sequence with every occurrence of `sep` removed.
pub open spec fn drop_sep(s: Seq<char>, sep: char) -> Seq<char> {
    s.filter(keep_not(sep))
}

pub proof fn lemma_char_of_digit(d: nat)
    requires
        d < 10,
    ensures
        is_digit_char(char_of_digit(d)),
        digit_val(char_of_digit(d)) == d,
{
}

/// A digit character is not whitespace and is none of the punctuation
/// characters that the report grammar gives a meaning to.
pub proof fn lemma_digit_not_special(c: char)
    requires
        is_digit_char(c),
    ensures
        !is_ws_char(c),
        c != ',',
        c != ')',
        c != '(',
        c != '\'',
{
}

/// `dec_rep` produces at least one digit, only digits, and a string whose
/// value is the number it was built from.
pub proof fn lemma_dec_rep_correct(n: nat)
    ensures
        dec_rep(n).len() >= 1,
        all_digits(dec_rep(n)),
        digits_value(dec_rep(n)) == n,
    decreases n,
{
    if n < 10 {
        lemma_char_of_digit(n);
        assert(dec_rep(n) =~= seq![char_of_digit(n)]);
        assert(dec_rep(n).drop_last() =~= Seq::<char>::empty());
        assert(digits_value(Seq::<char>::empty()) == 0);
        assert(dec_rep(n).last() == char_of_digit(n));
        assert(digits_value(dec_rep(n)) == 0 * 10 + digit_val(char_of_digit(n)));
    } else {
        lemma_dec_rep_correct(n / 10);
        lemma_char_of_digit(n % 10);
        let w = dec_rep(n / 10);
        assert(dec_rep(n) == w.push(char_of_digit(n % 10)));
        assert(w.push(char_of_digit(n % 10)).drop_last() =~= w);
        assert(dec_rep(n).last() == char_of_digit(n % 10));
        assert forall|i: int| 0 <= i < dec_rep(n).len() implies is_digit_char(dec_rep(n)[i]) by {
            if i < w.len() {
                assert(dec_rep(n)[i] == w[i]);
            }
        }
        assert(digits_value(dec_rep(n)) == (n / 10) * 10 + n % 10);
        assert((n / 10) * 10 + n % 10 == n) by (nonlinear_arith);
    }
}

/// Reading a longer prefix never decreases the parsed value.
pub proof fn lemma_digits_prefix_mono(t: Seq<char>, j: int)
    requires
        0 <= j <= t.len(),
    ensures
        digits_value(drop_sep(t.take(j), ',')) <= digits_value(drop_sep(t, ',')),
    decreases t.len() - j,
{
    if j < t.len() {
        lemma_digits_prefix_mono(t, j + 1);
        assert(t.take(j + 1) =~= t.take(j).push(t[j]));
        t.take(j).lemma_filter_push(t[j], keep_not(','));
        let pre = drop_sep(t.take(j), ',');
        if t[j] != ',' {
            let ext = pre.push(t[j]);
            assert(ext.drop_last() =~= pre);
            assert(digits_value(ext) == digits_value(pre) * 10 + digit_val(t[j]));
            assert(digits_value(pre) * 10 >= digits_value(pre)) by (nonlinear_arith);
        }
    } else {
        assert(t.take(j) =~= t);
    }
}

/// A filter that keeps everything leaves the sequence unchanged.
pub proof fn lemma_filter_all(s: Seq<char>, pred: spec_fn(char) -> bool)
    requires
        forall|i: int| 0 <= i < s.len() ==> pred(s[i]),
    ensures
        s.filter(pred) == s,
    decreases s.len(),
{
    reveal(Seq::filter);
    if s.len() > 0 {
        lemma_filter_all(s.drop_last(), pred);
        assert(s.filter(pred) =~= s);
    }
}

/// The value carried by a numeric token of the report grammar: decimal
/// digits and grouping commas only (a sign is not part of the grammar),
/// with at least one digit and a value that fits in a `u64`.
pub open spec fn num_token_value(t: Seq<char>) -> Option<u64> {
    if t.len() > 0 && (forall|i: int| 0 <= i < t.len() ==> is_digit_char(t[i]) || t[i] == ',')
        && drop_sep(t, ',').len() > 0 && digits_value(drop_sep(t, ',')) <= u64::MAX as nat {
        Some(digits_value(drop_sep(t, ',')) as u64)
    } else {
        None
    }
}

/// The value of a plain digit string, if it is nonempty, all digits,
/// and fits in a `u64`.
pub open spec fn digits_opt(s: Seq<char>) -> Option<u64> {
    if s.len() > 0 && all_digits(s) && digits_value(s) <= u64::MAX as nat {
        Some(digits_value(s) as u64)
    } else {
        None
    }
}

/// What dropping the grouping commas and reading the rest as an
/// unsigned integer yields: once the commas are removed, one optional
/// leading `+` may precede the digits, as std's unsigned parse accepts.
pub open spec fn plus_digits_value(s: Seq<char>) -> Option<u64> {
    let d = drop_sep(s, ',');
    if d.len() > 0 && d[0] == '+' {
        digits_opt(d.drop_first())
    } else {
        digits_opt(d)
    }
}

fn digit_char_value(c: char) -> (d: u64)
    requires
        is_digit_char(c),
    ensures
        d == digit_val(c),
        d < 10,
{
    ((c as u32) - ('0' as u32)) as u64
}

/// Parse a token of digits and grouping commas into its value.
pub fn parse_num_token(t: &Vec<char>) -> (r: Option<u64>)
    ensures
        r == num_token_value(t@),
{
    let n = t.len();
    let mut val: u64 = 0;
    let mut seen: bool = false;
    let mut i: usize = 0;
    proof {
        reveal(Seq::filter);
        assert(t@.take(0) =~= Seq::<char>::empty());
        assert(drop_sep(t@.take(0), ',') =~= Seq::<char>::empty());
    }
    while i < n
        invariant
            i <= n,
            n == t@.len(),
            forall|j: int| 0 <= j < i ==> is_digit_char(t@[j]) || t@[j] == ',',
            val as nat == digits_value(drop_sep(t@.take(i as int), ',')),
            seen == (drop_sep(t@.take(i as int), ',').len() > 0),
        decreases n - i,
    {
        let c = t[i];
        proof {
            assert(t@.take(i as int + 1) =~= t@.take(i as int).push(t@[i as int]));
            t@.take(i as int).lemma_filter_push(t@[i as int], keep_not(','));
        }
        if c == ',' {
            i = i + 1;
        } else if digit_char(c) {
            let d = digit_char_value(c);
            let ghost pre = drop_sep(t@.take(i as int), ',');
            proof {
                assert(pre.push(c).drop_last() =~= pre);
                assert(digits_value(pre.push(c)) == digits_value(pre) * 10 + digit_val(c));
            }
            if val > (u64::MAX - d) / 10 {
                proof {
                    assert(val as nat * 10 + d as nat > u64::MAX as nat) by (nonlinear_arith)
                        requires
                            val > (u64::MAX - d) / 10,
                            d < 10,
                    ;
                    lemma_digits_prefix_mono(t@, i as int + 1);
                    assert(digits_value(drop_sep(t@, ',')) > u64::MAX as nat);
                }
                return None;
            }
            proof {
                assert(val as nat * 10 + d as nat <= u64::MAX as nat) by (nonlinear_arith)
                    requires
                        val <= (u64::MAX - d) / 10,
                        d < 10,
                ;
            }
            val = val * 10 + d;
            seen = true;
            i = i + 1;
        } else {
            proof {
                assert(!(is_digit_char(t@[i as int]) || t@[i as int] == ','));
            }
            return None;
        }
    }
    proof {
        assert(t@.take(n as int) =~= t@);
    }
    if seen {
        Some(val)
    } else {
        None
    }
}

/// Remove every comma from a string.
pub fn drop_commas(s: &str) -> (r: String)
    ensures
        r@ == drop_sep(s@, ','),
{
    let cs = to_chars(s);
    let n = cs.len();
    let mut out = String::new();
    let mut i: usize = 0;
    proof {
        reveal(Seq::filter);
        assert(cs@.take(0) =~= Seq::<char>::empty());
        assert(drop_sep(cs@.take(0), ',') =~= Seq::<char>::empty());
    }
    while i < n
        invariant
            i <= n,
            n == cs@.len(),
            cs@ == s@,
            out@ == drop_sep(cs@.take(i as int), ','),
        decreases n - i,
    {
        let c = cs[i];
        proof {
            assert(cs@.take(i as int + 1) =~= cs@.take(i as int).push(cs@[i as int]));
            cs@.take(i as int).lemma_filter_push(cs@[i as int], keep_not(','));
        }
        if c != ',' {
            push_char(&mut out, c);
        }
        i = i + 1;
    }
    proof {
        assert(cs@.take(n as int) =~= cs@);
    }
    out
}

/// A longer prefix of a digit string never reads as a smaller value.
pub proof fn lemma_digits_take_mono(s: Seq<char>, j: int)
    requires
        0 <= j <= s.len(),
    ensures
        digits_value(s.take(j)) <= digits_value(s),
    decreases s.len() - j,
{
    if j < s.len() {
        lemma_digits_take_mono(s, j + 1);
        assert(s.take(j + 1) =~= s.take(j).push(s[j]));
        assert(s.take(j + 1).drop_last() =~= s.take(j));
        assert(digits_value(s.take(j + 1)) == digits_value(s.take(j)) * 10 + digit_val(s[j]));
        assert(digits_value(s.take(j)) * 10 >= digits_value(s.take(j))) by (nonlinear_arith);
    } else {
        assert(s.take(j) =~= s);
    }
}

/// The characters of `cs` with every comma removed.
fn drop_commas_chars(cs: &Vec<char>) -> (r: Vec<char>)
    ensures
        r@ == drop_sep(cs@, ','),
{
    let n = cs.len();
    let mut out: Vec<char> = Vec::new();
    let mut i: usize = 0;
    proof {
        reveal(Seq::filter);
        assert(cs@.take(0) =~= Seq::<char>::empty());
        assert(drop_sep(cs@.take(0), ',') =~= Seq::<char>::empty());
    }
    while i < n
        invariant
            i <= n,
            n == cs@.len(),
            out@ == drop_sep(cs@.take(i as int), ','),
        decreases n - i,
    {
        let c = cs[i];
        proof {
            assert(cs@.take(i as int + 1) =~= cs@.take(i as int).push(cs@[i as int]));
            cs@.take(i as int).lemma_filter_push(cs@[i as int], keep_not(','));
        }
        if c != ',' {
            out.push(c);
        }
        i = i + 1;
    }
    proof {
        assert(cs@.take(n as int) =~= cs@);
    }
    out
}

/// Parse `t[from..]` as a plain digit string.
fn parse_digits_from(t: &Vec<char>, from: usize) -> (r: Option<u64>)
    requires
        from <= t@.len(),
    ensures
        r == digits_opt(t@.skip(from as int)),
{
    let ghost d = t@.skip(from as int);
    let n = t.len();
    if from == n {
        proof {
            assert(d.len() == 0);
        }
        return None;
    }
    let mut val: u64 = 0;
    let mut i: usize = from;
    proof {
        assert(t@.subrange(from as int, from as int) =~= Seq::<char>::empty());
    }
    while i < n
        invariant
            from <= i <= n,
            n == t@.len(),
            d == t@.skip(from as int),
            forall|j: int| from <= j < i ==> is_digit_char(t@[j]),
            val as nat == digits_value(t@.subrange(from as int, i as int)),
        decreases n - i,
    {
        let c = t[i];
        if !digit_char(c) {
            proof {
                assert(d[i - from] == t@[i as int]);
                assert(!all_digits(d));
            }
            return None;
        }
        let d_val = digit_char_value(c);
        let ghost pre = t@.subrange(from as int, i as int);
        proof {
            assert(t@.subrange(from as int, i as int + 1) =~= pre.push(c));
            assert(pre.push(c).drop_last() =~= pre);
            assert(digits_value(pre.push(c)) == digits_value(pre) * 10 + digit_val(c));
        }
        if val > (u64::MAX - d_val) / 10 {
            proof {
                assert(val as nat * 10 + d_val as nat > u64::MAX as nat) by (nonlinear_arith)
                    requires
                        val > (u64::MAX - d_val) / 10,
                        d_val < 10,
                ;
                assert(d.take(i as int + 1 - from) =~= t@.subrange(from as int, i as int + 1));
                lemma_digits_take_mono(d, i as int + 1 - from);
                assert(digits_value(d) > u64::MAX as nat);
            }
            return None;
        }
        proof {
            assert(val as nat * 10 + d_val as nat <= u64::MAX as nat) by (nonlinear_arith)
                requires
                    val <= (u64::MAX - d_val) / 10,
                    d_val < 10,
            ;
        }
        val = val * 10 + d_val;
        i = i + 1;
    }
    proof {
        assert(t@.subrange(from as int, n as int) =~= d);
        assert forall|j: int| 0 <= j < d.len() implies is_digit_char(d[j]) by {
            assert(d[j] == t@[from + j]);
        }
        assert(d.len() > 0);
    }
    Some(val)
}

/// Drop grouping commas from a string and parse it as a `u64`. Once the
/// commas are gone, one optional leading `+` is accepted before the
/// digits, as std's unsigned parse accepts it.
pub fn parse_commas(s: &str) -> (r: Option<u64>)
    ensures
        r == plus_digits_value(s@),
{
    let cs = to_chars(s);
    let stripped = drop_commas_chars(&cs);
    if stripped.len() > 0 && stripped[0] == '+' {
        proof {
            assert(stripped@.skip(1) =~= stripped@.drop_first());
        }
        parse_digits_from(&stripped, 1)
    } else {
        proof {
            assert(stripped@.skip(0) =~= stripped@);
        }
        parse_digits_from(&stripped, 0)
    }
}

/// Drop grouping commas from a string and parse it as a `usize`, with
/// the same optional leading `+` as [`parse_commas`].
pub fn drop_commas_and_parse(s: &str) -> (r: Option<usize>)
    ensures
        r matches Some(v) ==> plus_digits_value(s@) == Some(v as u64),
        r is None ==> (plus_digits_value(s@) is None || plus_digits_value(s@)->0
            > usize::MAX as u64),
{
    match parse_commas(s) {
        None => None,
        Some(v) => {
            if v <= usize::MAX as u64 {
                Some(v as usize)
            } else {
                None
            }
        },
    }
}

/// Digits grouped with `sep` every three places, counted from the least
/// significant end.
pub open spec fn grouped(d: Seq<char>, sep: char) -> Seq<char>
    decreases d.len(),
{
    if d.len() <= 3 {
        d
    } else {
        grouped(d.take(d.len() - 3), sep) + seq![sep] + d.skip(d.len() - 3)
    }
}

/// Removing the separators from a grouped string restores the plain string.
pub proof fn lemma_grouped_strip(d: Seq<char>, sep: char)
    requires
        forall|i: int| 0 <= i < d.len() ==> d[i] != sep,
    ensures
        drop_sep(grouped(d, sep), sep) == d,
    decreases d.len(),
{
    let pred = keep_not(sep);
    if d.len() <= 3 {
        lemma_filter_all(d, pred);
    } else {
        let head = d.take(d.len() - 3);
        let tail = d.skip(d.len() - 3);
        lemma_grouped_strip(head, sep);
        Seq::filter_distributes_over_add(grouped(head, sep) + seq![sep], tail, pred);
        Seq::filter_distributes_over_add(grouped(head, sep), seq![sep], pred);
        reveal(Seq::filter);
        assert(seq![sep].drop_last() =~= Seq::<char>::empty());
        assert(Seq::<char>::empty().filter(pred) =~= Seq::<char>::empty());
        assert(!pred(sep));
        assert(seq![sep].last() == sep);
        assert(seq![sep].filter(pred) =~= Seq::<char>::empty());
        lemma_filter_all(tail, pred);
        assert(grouped(d, sep) == (grouped(head, sep) + seq![sep]) + tail);
        assert(grouped(d, sep).filter(pred) =~= d);
    }
}

/// In a grouped string the separators sit exactly every fourth position
/// counted from the right end, so every group except possibly the first
/// has exactly three digits.
pub proof fn lemma_grouped_positions(d: Seq<char>, sep: char)
    requires
        forall|i: int| 0 <= i < d.len() ==> d[i] != sep,
    ensures
        grouped(d, sep).len() == d.len() + (if d.len() == 0 {
            0int
        } else {
            (d.len() - 1) / 3
        }),
        forall|i: int|
            0 <= i < grouped(d, sep).len() ==> ((#[trigger] grouped(d, sep)[i] == sep) <==> (
            grouped(d, sep).len() - i) % 4 == 0),
    decreases d.len(),
{
    let g = grouped(d, sep);
    if d.len() <= 3 {
        assert forall|i: int| 0 <= i < g.len() implies ((g[i] == sep) <==> (g.len() - i) % 4
            == 0) by {
            assert(g[i] != sep);
            assert(0 < g.len() - i <= 3);
        }
    } else {
        let head = d.take(d.len() - 3);
        let tail = d.skip(d.len() - 3);
        lemma_grouped_positions(head, sep);
        let gh = grouped(head, sep);
        assert(g == (gh + seq![sep]) + tail);
        assert(g.len() == gh.len() + 4);
        assert((d.len() - 1) / 3 == (d.len() - 4) / 3 + 1) by (nonlinear_arith)
            requires
                d.len() > 3,
        ;
        assert forall|i: int| 0 <= i < g.len() implies ((g[i] == sep) <==> (g.len() - i) % 4
            == 0) by {
            if i < gh.len() {
                assert(g[i] == gh[i]);
                assert((g.len() - i) % 4 == (gh.len() - i) % 4);
            } else if i == gh.len() {
                assert(g[i] == sep);
                assert((g.len() - i) % 4 == 0);
            } else {
                assert(g[i] == tail[i - gh.len() - 1]);
                assert(g[i] != sep);
                assert(0 < g.len() - i < 4);
            }
        }
    }
}

/// The grouped rendering of the decimal digits of `n`, with its separators
/// removed, is exactly the plain decimal rendering of `n`; and the
/// separators sit every fourth position from the right, so every group
/// except possibly the leftmost has exactly three digits.
pub proof fn lemma_grouping_correct(n: nat, sep: char)
    requires
        !is_digit_char(sep),
    ensures
        drop_sep(grouped(dec_rep(n), sep), sep) == dec_rep(n),
        forall|i: int|
            0 <= i < grouped(dec_rep(n), sep).len() ==> ((#[trigger] grouped(dec_rep(n), sep)[i]
                == sep) <==> (grouped(dec_rep(n), sep).len() - i) % 4 == 0),
{
    lemma_dec_rep_correct(n);
    assert forall|i: int| 0 <= i < dec_rep(n).len() implies dec_rep(n)[i] != sep by {
        assert(is_digit_char(dec_rep(n)[i]));
    }
    lemma_grouped_strip(dec_rep(n), sep);
    lemma_grouped_positions(dec_rep(n), sep);
}

fn char_of_digit_exec(d: u64) -> (c: char)
    requires
        d < 10,
    ensures
        c == char_of_digit(d as nat),
{
    if d == 0 {
        '0'
    } else if d == 1 {
        '1'
    } else if d == 2 {
        '2'
    } else if d == 3 {
        '3'
    } else if d == 4 {
        '4'
    } else if d == 5 {
        '5'
    } else if d == 6 {
        '6'
    } else if d == 7 {
        '7'
    } else if d == 8 {
        '8'
    } else {
        '9'
    }
}

/// The decimal digits of `n`, most significant first.
pub fn u64_to_dec_chars(n: u64) -> (r: Vec<char>)
    ensures
        r@ == dec_rep(n as nat),
    decreases n,
{
    if n < 10 {
        let mut v: Vec<char> = Vec::new();
        v.push(char_of_digit_exec(n));
        proof {
            assert(v@ =~= seq![char_of_digit(n as nat)]);
        }
        v
    } else {
        let mut v = u64_to_dec_chars(n / 10);
        v.push(char_of_digit_exec(n % 10));
        v
    }
}

/// Render `n` in plain decimal, without any grouping.
pub fn u64_to_dec_string(n: u64) -> (r: String)
    ensures
        r@ == dec_rep(n as nat),
{
    let digits = u64_to_dec_chars(n);
    chars_to_string(&digits)
}

/// Group an initial segment of a digit vector with a separator every
/// three places from its right end.
fn grouped_exec(digits: &Vec<char>, upto: usize, sep: char) -> (r: Vec<char>)
    requires
        upto <= digits@.len(),
    ensures
        r@ == grouped(digits@.take(upto as int), sep),
    decreases upto,
{
    if upto <= 3 {
        let mut v: Vec<char> = Vec::new();
        let mut i: usize = 0;
        while i < upto
            invariant
                i <= upto,
                upto <= digits@.len(),
                v@ == digits@.take(upto as int).take(i as int),
            decreases upto - i,
        {
            v.push(digits[i]);
            i = i + 1;
            proof {
                assert(digits@.take(upto as int).take(i as int) =~= digits@.take(upto as int).take(
                    i as int - 1,
                ).push(digits@[i as int - 1]));
            }
        }
        proof {
            assert(digits@.take(upto as int).take(upto as int) =~= digits@.take(upto as int));
        }
        v
    } else {
        let mut v = grouped_exec(digits, upto - 3, sep);
        v.push(sep);
        v.push(digits[upto - 3]);
        v.push(digits[upto - 2]);
        v.push(digits[upto - 1]);
        proof {
            let d = digits@.take(upto as int);
            assert(d.take(d.len() - 3) =~= digits@.take(upto as int - 3));
            assert(v@ =~= grouped(d.take(d.len() - 3), sep) + seq![sep] + d.skip(d.len() - 3));
        }
        v
    }
}

/// Render `n` in decimal with a comma between each group of three digits.
pub fn commafy(n: u64) -> (r: String)
    ensures
        r@ == grouped(dec_rep(n as nat), ','),
{
    let digits = u64_to_dec_chars(n);
    let len = digits.len();
    let v = grouped_exec(&digits, len, ',');
    proof {
        assert(digits@.take(len as int) =~= digits@);
    }
    chars_to_string(&v)
}

/// Render `n` in decimal with `sep` between each group of three digits.
pub fn fmt_thousands_sep(n: usize, sep: char) -> (r: String)
    ensures
        r@ == grouped(dec_rep(n as nat), sep),
{
    let digits = u64_to_dec_chars(n as u64);
    let len = digits.len();
    let v = grouped_exec(&digits, len, sep);
    proof {
        assert(digits@.take(len as int) =~= digits@);
    }
    chars_to_string(&v)
}

} // verus!
