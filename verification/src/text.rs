//! Character-level helpers shared by the parser and the formatters:
//! whitespace and digit classes, conversions between `String`/`&str` and
//! `Vec<char>`, lexicographic ordering of names, and whitespace
//! tokenization of report lines.
use vstd::prelude::*;

verus! {

/// The whitespace characters that separate the tokens of a report line.
pub open spec fn is_ws_char(c: char) -> bool {
    c == ' ' || c == '\t' || c == '\n' || c == '\r' || c == '\u{b}' || c == '\u{c}'
}

/// Decimal digit characters.
pub open spec fn is_digit_char(c: char) -> bool {
    ('0' as u32) <= (c as u32) && (c as u32) <= ('9' as u32)
}

/// Numeric value of a decimal digit character.
pub open spec fn digit_val(c: char) -> nat {
    ((c as u32) - ('0' as u32)) as nat
}

pub fn ws_char(c: char) -> (r: bool)
    ensures
        r == is_ws_char(c),
{
    c == ' ' || c == '\t' || c == '\n' || c == '\r' || c == '\u{b}' || c == '\u{c}'
}

pub fn digit_char(c: char) -> (r: bool)
    ensures
        r == is_digit_char(c),
{
    ('0' as u32) <= (c as u32) && (c as u32) <= ('9' as u32)
}

/// Relies on std's `String::push`: it appends exactly the given character
/// to the end of the string.
#[verifier::external_body]
pub fn push_char(s: &mut String, c: char)
    ensures
        final(s)@ == old(s)@.push(c),
{
    s.push(c);
}

/// Collect the characters of a string into a vector.
pub fn to_chars(s: &str) -> (r: Vec<char>)
    ensures
        r@ == s@,
{
    let n = s.unicode_len();
    let mut v: Vec<char> = Vec::new();
    let mut i: usize = 0;
    while i < n
        invariant
            i <= n,
            n == s@.len(),
            v@ == s@.take(i as int),
        decreases n - i,
    {
        v.push(s.get_char(i));
        i = i + 1;
        proof {
            assert(s@.take(i as int) =~= s@.take(i as int - 1).push(s@[i as int - 1]));
        }
    }
    proof {
        assert(s@.take(n as int) =~= s@);
    }
    v
}

/// Build a string out of a vector of characters.
pub fn chars_to_string(v: &Vec<char>) -> (r: String)
    ensures
        r@ == v@,
{
    let mut s = String::new();
    let mut i: usize = 0;
    while i < v.len()
        invariant
            i <= v@.len(),
            s@ == v@.take(i as int),
        decreases v@.len() - i,
    {
        push_char(&mut s, v[i]);
        i = i + 1;
        proof {
            assert(v@.take(i as int) =~= v@.take(i as int - 1).push(v@[i as int - 1]));
        }
    }
    proof {
        assert(v@.take(v@.len() as int) =~= v@);
    }
    s
}

/// Compare a character vector against a string for equality of contents.
pub fn chars_eq_str(v: &Vec<char>, s: &str) -> (r: bool)
    ensures
        r == (v@ == s@),
{
    let n = s.unicode_len();
    if v.len() != n {
        proof {
            assert(v@ != s@);
        }
        return false;
    }
    let mut i: usize = 0;
    while i < n
        invariant
            i <= n,
            n == s@.len(),
            n == v@.len(),
            forall|j: int| 0 <= j < i ==> v@[j] == s@[j],
        decreases n - i,
    {
        if v[i] != s.get_char(i) {
            proof {
                assert(v@[i as int] != s@[i as int]);
            }
            return false;
        }
        i = i + 1;
    }
    proof {
        assert(v@ =~= s@);
    }
    true
}

/// Two characters with the same code point are the same character.
pub proof fn lemma_char_injective(a: char, b: char)
    requires
        a as u32 == b as u32,
    ensures
        a == b,
{
}

/// Lexicographic order on character sequences by code point; the order in
/// which benchmark names are sorted and merged.
pub open spec fn lex_le(a: Seq<char>, b: Seq<char>) -> bool
    decreases a.len(),
{
    if a.len() == 0 {
        true
    } else if b.len() == 0 {
        false
    } else if (a[0] as u32) < (b[0] as u32) {
        true
    } else if (a[0] as u32) > (b[0] as u32) {
        false
    } else {
        lex_le(a.drop_first(), b.drop_first())
    }
}

/// `lex_le` relates every pair of sequences one way or the other.
pub proof fn lemma_lex_le_total(a: Seq<char>, b: Seq<char>)
    ensures
        lex_le(a, b) || lex_le(b, a),
    decreases a.len(),
{
    if a.len() > 0 && b.len() > 0 && (a[0] as u32) == (b[0] as u32) {
        lemma_lex_le_total(a.drop_first(), b.drop_first());
    }
}

/// `lex_le` both ways means the sequences are equal.
pub proof fn lemma_lex_le_antisym(a: Seq<char>, b: Seq<char>)
    requires
        lex_le(a, b),
        lex_le(b, a),
    ensures
        a == b,
    decreases a.len(),
{
    if a.len() > 0 && b.len() > 0 {
        lemma_char_injective(a[0], b[0]);
        lemma_lex_le_antisym(a.drop_first(), b.drop_first());
        assert(a =~= seq![a[0]] + a.drop_first());
        assert(b =~= seq![b[0]] + b.drop_first());
    }
}

/// `lex_le` is transitive.
pub proof fn lemma_lex_le_trans(a: Seq<char>, b: Seq<char>, c: Seq<char>)
    requires
        lex_le(a, b),
        lex_le(b, c),
    ensures
        lex_le(a, c),
    decreases a.len(),
{
    if a.len() > 0 && b.len() > 0 && c.len() > 0 {
        if (a[0] as u32) == (b[0] as u32) && (b[0] as u32) == (c[0] as u32) {
            lemma_lex_le_trans(a.drop_first(), b.drop_first(), c.drop_first());
        }
    }
}

/// Decide `lex_le` on two strings.
pub fn str_le(a: &str, b: &str) -> (r: bool)
    ensures
        r == lex_le(a@, b@),
{
    let na = a.unicode_len();
    let nb = b.unicode_len();
    let mut i: usize = 0;
    proof {
        assert(a@.skip(0) =~= a@);
        assert(b@.skip(0) =~= b@);
    }
    loop
        invariant
            i <= na,
            i <= nb,
            na == a@.len(),
            nb == b@.len(),
            lex_le(a@, b@) == lex_le(a@.skip(i as int), b@.skip(i as int)),
        decreases na - i,
    {
        if i == na {
            proof {
                assert(lex_le(a@.skip(i as int), b@.skip(i as int)));
            }
            return true;
        }
        if i == nb {
            proof {
                assert(!lex_le(a@.skip(i as int), b@.skip(i as int)));
            }
            return false;
        }
        let ca = a.get_char(i);
        let cb = b.get_char(i);
        if (ca as u32) < (cb as u32) {
            proof {
                assert(lex_le(a@.skip(i as int), b@.skip(i as int)));
            }
            return true;
        }
        if (ca as u32) > (cb as u32) {
            proof {
                assert(!lex_le(a@.skip(i as int), b@.skip(i as int)));
            }
            return false;
        }
        proof {
            assert(a@.skip(i as int).drop_first() =~= a@.skip(i as int + 1));
            assert(b@.skip(i as int).drop_first() =~= b@.skip(i as int + 1));
        }
        i = i + 1;
    }
}

/// Length of the longest whitespace-free prefix.
pub open spec fn nonws_prefix_len(s: Seq<char>) -> nat
    decreases s.len(),
{
    if s.len() == 0 || is_ws_char(s[0]) {
        0nat
    } else {
        1nat + nonws_prefix_len(s.drop_first())
    }
}

pub proof fn lemma_nonws_prefix_le_len(s: Seq<char>)
    ensures
        nonws_prefix_len(s) <= s.len(),
    decreases s.len(),
{
    if s.len() > 0 && !is_ws_char(s[0]) {
        lemma_nonws_prefix_le_len(s.drop_first());
    }
}

/// The whitespace-free prefix length is exactly the position of the first
/// whitespace character (or the whole length if there is none).
pub proof fn lemma_nonws_prefix_len_is(s: Seq<char>, k: int)
    requires
        0 <= k <= s.len(),
        forall|j: int| 0 <= j < k ==> !is_ws_char(s[j]),
        k == s.len() || is_ws_char(s[k]),
    ensures
        nonws_prefix_len(s) == k,
    decreases k,
{
    if k == 0 {
    } else {
        assert(!is_ws_char(s[0]));
        lemma_nonws_prefix_len_is(s.drop_first(), k - 1);
    }
}

/// Split a sequence into its whitespace-separated tokens.
pub open spec fn tokens_of(s: Seq<char>) -> Seq<Seq<char>>
    decreases s.len(),
    via tokens_of_dec
{
    if s.len() == 0 {
        Seq::empty()
    } else if is_ws_char(s[0]) {
        tokens_of(s.drop_first())
    } else {
        seq![s.take(nonws_prefix_len(s) as int)] + tokens_of(s.skip(nonws_prefix_len(s) as int))
    }
}

#[via_fn]
proof fn tokens_of_dec(s: Seq<char>) {
    if s.len() > 0 && !is_ws_char(s[0]) {
        lemma_nonws_prefix_le_len(s);
    }
}

/// A well-formed token: nonempty and free of whitespace.
pub open spec fn token_shaped(t: Seq<char>) -> bool {
    t.len() > 0 && forall|j: int| 0 <= j < t.len() ==> !is_ws_char(t[j])
}

/// Tokenizing a whitespace-free token followed by a whitespace-or-empty
/// remainder yields the token and then the remainder's tokens.
pub proof fn lemma_tokens_of_token_prefix(t: Seq<char>, rest: Seq<char>)
    requires
        t.len() > 0,
        forall|j: int| 0 <= j < t.len() ==> !is_ws_char(t[j]),
        rest.len() == 0 || is_ws_char(rest[0]),
    ensures
        tokens_of(t + rest) == seq![t] + tokens_of(rest),
{
    let s = t + rest;
    assert(forall|j: int| 0 <= j < t.len() ==> !is_ws_char(s[j]));
    assert(t.len() == s.len() || is_ws_char(s[t.len() as int]));
    lemma_nonws_prefix_len_is(s, t.len() as int);
    assert(s.take(t.len() as int) =~= t);
    assert(s.skip(t.len() as int) =~= rest);
    assert(tokens_of(s) == seq![t] + tokens_of(rest));
}

/// A leading whitespace character does not affect the tokens.
pub proof fn lemma_tokens_of_ws_prefix(c: char, rest: Seq<char>)
    requires
        is_ws_char(c),
    ensures
        tokens_of(seq![c] + rest) == tokens_of(rest),
{
    let s = seq![c] + rest;
    assert(is_ws_char(s[0]));
    assert(s.drop_first() =~= rest);
}

/// Split a string into its whitespace-separated tokens.
pub fn tokenize(s: &str) -> (r: Vec<Vec<char>>)
    ensures
        r.deep_view() == tokens_of(s@),
{
    let cs = to_chars(s);
    let n = cs.len();
    let mut out: Vec<Vec<char>> = Vec::new();
    let mut i: usize = 0;
    proof {
        assert(cs@.skip(0) =~= cs@);
        assert(out.deep_view() =~= Seq::<Seq<char>>::empty());
        assert(out.deep_view() + tokens_of(cs@) =~= tokens_of(cs@));
    }
    while i < n
        invariant
            i <= n,
            n == cs@.len(),
            cs@ == s@,
            tokens_of(s@) == out.deep_view() + tokens_of(cs@.skip(i as int)),
        decreases n - i,
    {
        if ws_char(cs[i]) {
            proof {
                assert(cs@.skip(i as int).drop_first() =~= cs@.skip(i as int + 1));
                assert(tokens_of(cs@.skip(i as int)) == tokens_of(cs@.skip(i as int + 1)));
            }
            i = i + 1;
        } else {
            let ghost start = i as int;
            let mut tok: Vec<char> = Vec::new();
            while i < n && !ws_char(cs[i])
                invariant
                    start <= i <= n,
                    n == cs@.len(),
                    tok@.len() == i - start,
                    forall|k: int| 0 <= k < i - start ==> tok@[k] == cs@[start + k],
                    forall|j: int| start <= j < i ==> !is_ws_char(cs@[j]),
                decreases n - i,
            {
                tok.push(cs[i]);
                i = i + 1;
            }
            proof {
                let tail = cs@.skip(start);
                assert(forall|j: int| 0 <= j < i - start ==> !is_ws_char(#[trigger] tail[j]));
                assert(i < n ==> is_ws_char(tail[i - start]));
                lemma_nonws_prefix_len_is(tail, i - start);
                assert(tail.take(i - start) =~= tok@);
                assert(tail.skip(i - start) =~= cs@.skip(i as int));
                assert(tokens_of(tail) == seq![tok@] + tokens_of(cs@.skip(i as int)));
            }
            let ghost old_out = out.deep_view();
            out.push(tok);
            proof {
                assert(out.deep_view() =~~= old_out + seq![tok@]);
            }
        }
    }
    proof {
        assert(tokens_of(cs@.skip(n as int)) =~= Seq::<Seq<char>>::empty());
        assert(out.deep_view() + Seq::<Seq<char>>::empty() =~= out.deep_view());
    }
    out
}

} // verus!
