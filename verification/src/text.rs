//! Character-level text utilities with exact specifications: whitespace
//! tokenization, line splitting, decimal numerals, and string comparison.
//! Process-table text is plain text, so everything here is defined over
//! sequences of characters.

use vstd::prelude::*;
use vstd::string::StrSliceExecFns;

verus! {

/// A whitespace character: the ASCII separators found in process-table text.
pub open spec fn is_ws_char(c: char) -> bool {
    c == ' ' || c == '\t' || c == '\n' || c == '\r' || c == '\u{b}' || c == '\u{c}'
}

/// Runtime test for `is_ws_char`.
pub fn ws_char(c: char) -> (r: bool)
    ensures
        r == is_ws_char(c),
{
    c == ' ' || c == '\t' || c == '\n' || c == '\r' || c == '\u{b}' || c == '\u{c}'
}

/// The whitespace-separated tokens of `s`, in order. A token is a maximal
/// run of non-whitespace characters; separators never appear in tokens.
pub open spec fn tokens_of(s: Seq<char>) -> Seq<Seq<char>>
    decreases s.len(),
{
    if s.len() == 0 {
        Seq::empty()
    } else if is_ws_char(s[0]) {
        tokens_of(s.skip(1))
    } else if s.len() == 1 || is_ws_char(s[1]) {
        seq![seq![s[0]]] + tokens_of(s.skip(1))
    } else {
        let rest = tokens_of(s.skip(1));
        seq![seq![s[0]] + rest[0]] + rest.skip(1)
    }
}

/// A wellformed token: nonempty and free of whitespace.
pub open spec fn wellformed_token(t: Seq<char>) -> bool {
    &&& t.len() > 0
    &&& forall|i: int| 0 <= i < t.len() ==> !is_ws_char(t[i])
}

/// Text that begins with a non-whitespace character has a first token.
proof fn lemma_tokens_first_nonempty(s: Seq<char>)
    requires
        s.len() > 0,
        !is_ws_char(s[0]),
    ensures
        tokens_of(s).len() >= 1,
{
}

/// Tokenizing a single token followed by whitespace-led (or empty) text
/// yields that token, then the tokens of the remainder.
proof fn lemma_tokens_of_token_plus(t: Seq<char>, s: Seq<char>)
    requires
        wellformed_token(t),
        s.len() == 0 || is_ws_char(s[0]),
    ensures
        tokens_of(t + s) == seq![t] + tokens_of(s),
    decreases t.len(),
{
    let u = t + s;
    assert(u[0] == t[0]);
    assert(!is_ws_char(u[0]));
    if t.len() == 1 {
        assert(u.skip(1) =~= s);
        if u.len() > 1 {
            assert(u[1] == s[0]);
        }
        assert(seq![u[0]] =~= t);
        assert(tokens_of(u) =~= seq![t] + tokens_of(s));
    } else {
        let t1 = t.skip(1);
        assert(wellformed_token(t1)) by {
            assert(forall|i: int| 0 <= i < t1.len() ==> t1[i] == t[i + 1]);
        }
        lemma_tokens_of_token_plus(t1, s);
        assert(u.skip(1) =~= t1 + s);
        let rest = tokens_of(u.skip(1));
        assert(rest == seq![t1] + tokens_of(s));
        assert(rest[0] == t1);
        assert(u[1] == t[1]);
        assert(!is_ws_char(u[1]));
        assert(seq![u[0]] + rest[0] =~= t);
        assert(rest.skip(1) =~= tokens_of(s));
        assert(tokens_of(u) =~= seq![t] + tokens_of(s));
    }
}

/// Skipping one leading whitespace character does not change the tokens.
proof fn lemma_tokens_skip_ws(s: Seq<char>, i: int)
    requires
        0 <= i < s.len(),
        is_ws_char(s[i]),
    ensures
        tokens_of(s.skip(i)) == tokens_of(s.skip(i + 1)),
{
    assert(s.skip(i)[0] == s[i]);
    assert(s.skip(i).skip(1) =~= s.skip(i + 1));
}

/// A maximal non-whitespace run `[start, end)` is the next token of the
/// suffix beginning at `start`.
proof fn lemma_tokens_at_token(s: Seq<char>, start: int, end: int)
    requires
        0 <= start < end <= s.len(),
        forall|j: int| start <= j < end ==> !is_ws_char(s[j]),
        end == s.len() || is_ws_char(s[end]),
    ensures
        tokens_of(s.skip(start)) == seq![s.subrange(start, end)] + tokens_of(s.skip(end)),
{
    let t = s.subrange(start, end);
    assert(wellformed_token(t));
    assert(s.skip(start) =~= t + s.skip(end));
    if end < s.len() {
        assert(s.skip(end)[0] == s[end]);
    }
    lemma_tokens_of_token_plus(t, s.skip(end));
}

/// Split `s` into its whitespace-separated tokens.
pub fn split_tokens(s: &str) -> (r: Vec<String>)
    ensures
        r.deep_view() == tokens_of(s@),
{
    let n: usize = s.unicode_len();
    let mut toks: Vec<String> = Vec::new();
    let mut i: usize = 0;
    proof {
        assert(toks.deep_view() =~= Seq::<Seq<char>>::empty());
        assert(s@.skip(0) =~= s@);
    }
    while i < n
        invariant
            i <= n,
            n == s@.len(),
            toks.deep_view() + tokens_of(s@.skip(i as int)) =~= tokens_of(s@),
        decreases n - i,
    {
        let c = s.get_char(i);
        if ws_char(c) {
            proof {
                lemma_tokens_skip_ws(s@, i as int);
            }
            i = i + 1;
        } else {
            let start: usize = i;
            i = i + 1;
            loop
                invariant
                    n == s@.len(),
                    start < i <= n,
                    !is_ws_char(s@[start as int]),
                    forall|j: int| start <= j < i ==> !is_ws_char(s@[j]),
                ensures
                    start < i <= n,
                    forall|j: int| start <= j < i ==> !is_ws_char(s@[j]),
                    i == n || is_ws_char(s@[i as int]),
                decreases n - i,
            {
                if i == n {
                    break;
                }
                let c2 = s.get_char(i);
                if ws_char(c2) {
                    break;
                }
                i = i + 1;
            }
            proof {
                lemma_tokens_at_token(s@, start as int, i as int);
            }
            let tok: &str = s.substring_char(start, i);
            let ghost pre = toks.deep_view();
            toks.push(tok.to_owned());
            proof {
                assert(toks.deep_view() =~= pre.push(s@.subrange(start as int, i as int)));
                assert(pre.push(s@.subrange(start as int, i as int)) + tokens_of(s@.skip(i as int))
                    =~= pre + (seq![s@.subrange(start as int, i as int)] + tokens_of(
                    s@.skip(i as int),
                )));
            }
        }
    }
    proof {
        assert(s@.skip(n as int) =~= Seq::<char>::empty());
        assert(toks.deep_view() + Seq::<Seq<char>>::empty() =~= toks.deep_view());
    }
    toks
}

/// The tail of a space-joined token list: one space before each token.
pub open spec fn join_tail(toks: Seq<Seq<char>>) -> Seq<char>
    decreases toks.len(),
{
    if toks.len() == 0 {
        Seq::empty()
    } else {
        seq![' '] + toks[0] + join_tail(toks.skip(1))
    }
}

/// The tokens joined with single spaces between them.
pub open spec fn join_spaces(toks: Seq<Seq<char>>) -> Seq<char> {
    if toks.len() == 0 {
        Seq::empty()
    } else {
        toks[0] + join_tail(toks.skip(1))
    }
}

proof fn lemma_join_tail_push(toks: Seq<Seq<char>>, t: Seq<char>)
    ensures
        join_tail(toks.push(t)) == join_tail(toks) + seq![' '] + t,
    decreases toks.len(),
{
    if toks.len() == 0 {
        assert(toks.push(t).skip(1) =~= Seq::<Seq<char>>::empty());
        assert(join_tail(toks.push(t)) =~= join_tail(toks) + seq![' '] + t);
    } else {
        lemma_join_tail_push(toks.skip(1), t);
        assert(toks.push(t).skip(1) =~= toks.skip(1).push(t));
        assert(toks.push(t)[0] == toks[0]);
        assert(join_tail(toks.push(t)) == seq![' '] + toks.push(t)[0] + join_tail(
            toks.push(t).skip(1),
        ));
        assert(join_tail(toks.push(t).skip(1)) == join_tail(toks.skip(1)) + seq![' '] + t);
        assert(join_tail(toks.push(t)) =~= join_tail(toks) + seq![' '] + t);
    }
}

/// Appending one more token to a joined list appends one space and the token.
proof fn lemma_join_spaces_push(toks: Seq<Seq<char>>, t: Seq<char>)
    ensures
        toks.len() == 0 ==> join_spaces(toks.push(t)) == t,
        toks.len() > 0 ==> join_spaces(toks.push(t)) == join_spaces(toks) + seq![' '] + t,
{
    if toks.len() == 0 {
        assert(toks.push(t)[0] == t);
        assert(toks.push(t).skip(1) =~= Seq::<Seq<char>>::empty());
        assert(join_spaces(toks.push(t)) =~= t);
    } else {
        lemma_join_tail_push(toks.skip(1), t);
        assert(toks.push(t).skip(1) =~= toks.skip(1).push(t));
        assert(toks.push(t)[0] == toks[0]);
        assert(join_spaces(toks.push(t)) =~= join_spaces(toks) + seq![' '] + t);
    }
}

/// Join the tokens of `toks` from index `from` onward with single spaces.
pub fn join_from(toks: &Vec<String>, from: usize) -> (r: String)
    requires
        from as int <= toks@.len(),
    ensures
        r@ == join_spaces(toks.deep_view().skip(from as int)),
{
    let ghost suffix = toks.deep_view().skip(from as int);
    let mut r = String::new();
    let mut i: usize = from;
    proof {
        assert(suffix.take(0) =~= Seq::<Seq<char>>::empty());
    }
    while i < toks.len()
        invariant
            from <= i <= toks@.len(),
            suffix == toks.deep_view().skip(from as int),
            toks.deep_view().len() == toks@.len(),
            r@ == join_spaces(suffix.take(i - from)),
        decreases toks@.len() - i,
    {
        let ghost k = i - from;
        proof {
            assert(suffix.take(k + 1) =~= suffix.take(k).push(suffix[k]));
            lemma_join_spaces_push(suffix.take(k), suffix[k]);
            assert(suffix[k] == toks.deep_view()[i as int]);
            assert(toks.deep_view()[i as int] == toks@[i as int]@);
        }
        if i > from {
            r.append(" ");
            proof {
                reveal_strlit(" ");
                assert(" "@ =~= seq![' ']);
            }
        }
        r.append(toks[i].as_str());
        proof {
            if k == 0 {
                assert(r@ =~= join_spaces(suffix.take(k + 1)));
            } else {
                assert(r@ =~= join_spaces(suffix.take(k)) + seq![' '] + suffix[k]);
                assert(r@ =~= join_spaces(suffix.take(k + 1)));
            }
        }
        i = i + 1;
    }
    proof {
        assert(suffix.take(toks@.len() - from) =~= suffix);
    }
    r
}

/// Every token produced by tokenization is wellformed: nonempty and free
/// of whitespace.
proof fn lemma_tokens_wellformed(s: Seq<char>)
    ensures
        forall|k: int|
            0 <= k < tokens_of(s).len() ==> wellformed_token(#[trigger] tokens_of(s)[k]),
    decreases s.len(),
{
    if s.len() == 0 {
    } else if is_ws_char(s[0]) {
        lemma_tokens_wellformed(s.skip(1));
    } else if s.len() == 1 || is_ws_char(s[1]) {
        lemma_tokens_wellformed(s.skip(1));
        assert(wellformed_token(seq![s[0]]));
        assert(forall|k: int|
            1 <= k < tokens_of(s).len() ==> tokens_of(s)[k] == tokens_of(s.skip(1))[k - 1]);
    } else {
        lemma_tokens_wellformed(s.skip(1));
        let rest = tokens_of(s.skip(1));
        assert(s.skip(1).len() > 0 && !is_ws_char(s.skip(1)[0]));
        lemma_tokens_first_nonempty(s.skip(1));
        assert(wellformed_token(rest[0]));
        let head = seq![s[0]] + rest[0];
        assert(wellformed_token(head)) by {
            assert(head[0] == s[0]);
            assert(forall|i: int| 1 <= i < head.len() ==> head[i] == rest[0][i - 1]);
        }
        assert(forall|k: int|
            1 <= k < tokens_of(s).len() ==> tokens_of(s)[k] == rest[k]);
    }
}

/// Joining wellformed tokens with single spaces and tokenizing the result
/// gives back exactly those tokens.
proof fn lemma_tokens_of_join(toks: Seq<Seq<char>>)
    requires
        forall|k: int| 0 <= k < toks.len() ==> wellformed_token(#[trigger] toks[k]),
    ensures
        tokens_of(join_spaces(toks)) == toks,
    decreases toks.len(),
{
    if toks.len() == 0 {
        assert(tokens_of(join_spaces(toks)) =~= toks);
    } else if toks.len() == 1 {
        assert(toks.skip(1) =~= Seq::<Seq<char>>::empty());
        assert(join_spaces(toks) =~= toks[0] + Seq::<char>::empty());
        lemma_tokens_of_token_plus(toks[0], Seq::<char>::empty());
        assert(toks[0] + Seq::<char>::empty() =~= toks[0]);
        assert(tokens_of(join_spaces(toks)) =~= toks);
    } else {
        let tail = join_tail(toks.skip(1));
        assert(tail[0] == ' ');
        lemma_tokens_of_token_plus(toks[0], tail);
        assert(join_spaces(toks) == toks[0] + tail);
        lemma_tokens_skip_ws(tail, 0);
        assert(tail.skip(0) =~= tail);
        assert(tail.skip(1) =~= join_spaces(toks.skip(1))) by {
            assert(tail == seq![' '] + toks.skip(1)[0] + join_tail(toks.skip(1).skip(1)));
        }
        lemma_tokens_of_join(toks.skip(1));
        assert(tokens_of(join_spaces(toks)) =~= seq![toks[0]] + toks.skip(1));
        assert(seq![toks[0]] + toks.skip(1) =~= toks);
    }
}

/// Command round trip: a line with at least four whitespace-separated
/// tokens, whose tokens from the fourth onward are joined with single
/// spaces, tokenizes back to exactly those tokens.
pub proof fn lemma_command_round_trip(line: Seq<char>)
    requires
        tokens_of(line).len() >= 4,
    ensures
        tokens_of(join_spaces(tokens_of(line).skip(3))) == tokens_of(line).skip(3),
{
    lemma_tokens_wellformed(line);
    let toks = tokens_of(line).skip(3);
    assert(forall|k: int| 0 <= k < toks.len() ==> toks[k] == tokens_of(line)[k + 3]);
    lemma_tokens_of_join(toks);
}

/// A decimal digit character.
pub open spec fn is_digit_char(c: char) -> bool {
    48 <= c as u32 <= 57
}

/// The numeric value of a decimal digit character.
pub open spec fn digit_val(c: char) -> nat {
    (c as u32 - 48) as nat
}

/// Nonempty text made of decimal digits only.
pub open spec fn is_digit_seq(s: Seq<char>) -> bool {
    &&& s.len() > 0
    &&& forall|i: int| 0 <= i < s.len() ==> is_digit_char(#[trigger] s[i])
}

/// The value of decimal digit text, most significant digit first.
pub open spec fn dec_value(s: Seq<char>) -> nat
    decreases s.len(),
{
    if s.len() == 0 {
        0
    } else {
        dec_value(s.drop_last()) * 10 + digit_val(s.last())
    }
}

proof fn lemma_dec_value_take_le(s: Seq<char>, j: int)
    requires
        0 <= j <= s.len(),
    ensures
        dec_value(s.take(j)) <= dec_value(s),
    decreases s.len() - j,
{
    if j < s.len() {
        assert(s.take(j + 1).drop_last() =~= s.take(j));
        assert(dec_value(s.take(j)) <= dec_value(s.take(j)) * 10 + digit_val(s.take(j + 1).last()));
        lemma_dec_value_take_le(s, j + 1);
    } else {
        assert(s.take(j) =~= s);
    }
}

/// Parse nonempty decimal digit text as a `u32`. Returns `None` exactly
/// when the text is not a nonempty run of digits, or its value does not
/// fit in a `u32`.
pub fn parse_u32(s: &str) -> (r: Option<u32>)
    ensures
        r is Some <==> is_digit_seq(s@) && dec_value(s@) <= u32::MAX,
        r is Some ==> r->Some_0 as nat == dec_value(s@),
{
    let n: usize = s.unicode_len();
    if n == 0 {
        return None;
    }
    let mut val: u64 = 0;
    let mut i: usize = 0;
    proof {
        assert(s@.take(0) =~= Seq::<char>::empty());
    }
    while i < n
        invariant
            0 < n == s@.len(),
            i <= n,
            forall|j: int| 0 <= j < i ==> is_digit_char(#[trigger] s@[j]),
            val as nat == dec_value(s@.take(i as int)),
            val <= u32::MAX,
        decreases n - i,
    {
        let c = s.get_char(i);
        let code: u32 = c as u32;
        if code < 48 || code > 57 {
            return None;
        }
        let d: u64 = (code - 48) as u64;
        let next: u64 = val * 10 + d;
        proof {
            assert(s@.take(i + 1).drop_last() =~= s@.take(i as int));
            assert(s@.take(i + 1).last() == s@[i as int]);
            assert(next as nat == dec_value(s@.take(i + 1)));
        }
        if next > u32::MAX as u64 {
            proof {
                lemma_dec_value_take_le(s@, i + 1);
            }
            return None;
        }
        val = next;
        i = i + 1;
    }
    proof {
        assert(s@.take(n as int) =~= s@);
    }
    Some(val as u32)
}

/// The decimal digit character of `d`, for `d` below ten.
pub open spec fn digit_char(d: nat) -> char {
    if d == 0 {
        '0'
    } else if d == 1 {
        '1'
    } else if d == 2 {
        '2'
    } else if d == 3 {
        '3'
    } else if d == 4 {
        '4'
    } else if d == 5 {
        '5'
    } else if d == 6 {
        '6'
    } else if d == 7 {
        '7'
    } else if d == 8 {
        '8'
    } else {
        '9'
    }
}

/// The decimal numeral of `n`, most significant digit first.
pub open spec fn dec_string_of(n: nat) -> Seq<char>
    decreases n,
{
    if n < 10 {
        seq![digit_char(n)]
    } else {
        dec_string_of(n / 10).push(digit_char(n % 10))
    }
}

fn digit_str(d: u32) -> (r: &'static str)
    requires
        d < 10,
    ensures
        r@ == seq![digit_char(d as nat)],
{
    proof {
        reveal_strlit("0");
        reveal_strlit("1");
        reveal_strlit("2");
        reveal_strlit("3");
        reveal_strlit("4");
        reveal_strlit("5");
        reveal_strlit("6");
        reveal_strlit("7");
        reveal_strlit("8");
        reveal_strlit("9");
    }
    if d == 0 {
        proof {
            assert("0"@ =~= seq![digit_char(0)]);
        }
        "0"
    } else if d == 1 {
        proof {
            assert("1"@ =~= seq![digit_char(1)]);
        }
        "1"
    } else if d == 2 {
        proof {
            assert("2"@ =~= seq![digit_char(2)]);
        }
        "2"
    } else if d == 3 {
        proof {
            assert("3"@ =~= seq![digit_char(3)]);
        }
        "3"
    } else if d == 4 {
        proof {
            assert("4"@ =~= seq![digit_char(4)]);
        }
        "4"
    } else if d == 5 {
        proof {
            assert("5"@ =~= seq![digit_char(5)]);
        }
        "5"
    } else if d == 6 {
        proof {
            assert("6"@ =~= seq![digit_char(6)]);
        }
        "6"
    } else if d == 7 {
        proof {
            assert("7"@ =~= seq![digit_char(7)]);
        }
        "7"
    } else if d == 8 {
        proof {
            assert("8"@ =~= seq![digit_char(8)]);
        }
        "8"
    } else {
        proof {
            assert("9"@ =~= seq![digit_char(9)]);
        }
        "9"
    }
}

/// Render `n` as its decimal numeral.
pub fn u32_string(n: u32) -> (r: String)
    ensures
        r@ == dec_string_of(n as nat),
    decreases n,
{
    if n < 10 {
        digit_str(n).to_owned()
    } else {
        let mut prefix = u32_string(n / 10);
        prefix.append(digit_str(n % 10));
        proof {
            assert(dec_string_of((n / 10) as nat) + seq![digit_char((n % 10) as nat)]
                =~= dec_string_of(n as nat));
        }
        prefix
    }
}

/// Character-for-character string equality.
pub fn str_eq(a: &str, b: &str) -> (r: bool)
    ensures
        r == (a@ == b@),
{
    let na: usize = a.unicode_len();
    let nb: usize = b.unicode_len();
    if na != nb {
        return false;
    }
    let mut i: usize = 0;
    while i < na
        invariant
            i <= na,
            na == a@.len() && na == b@.len(),
            forall|j: int| 0 <= j < i ==> a@[j] == b@[j],
        decreases na - i,
    {
        if a.get_char(i) != b.get_char(i) {
            return false;
        }
        i = i + 1;
    }
    proof {
        assert(a@ =~= b@);
    }
    true
}

/// Whether `p` is a prefix of `s`.
pub fn str_starts_with(s: &str, p: &str) -> (r: bool)
    ensures
        r == p@.is_prefix_of(s@),
{
    let np: usize = p.unicode_len();
    let ns: usize = s.unicode_len();
    if np > ns {
        return false;
    }
    let mut i: usize = 0;
    while i < np
        invariant
            i <= np,
            np == p@.len() && ns == s@.len() && np <= ns,
            forall|j: int| 0 <= j < i ==> p@[j] == s@[j],
        decreases np - i,
    {
        if p.get_char(i) != s.get_char(i) {
            proof {
                assert(s@.subrange(0, np as int)[i as int] == s@[i as int]);
            }
            return false;
        }
        i = i + 1;
    }
    proof {
        assert(p@ =~= s@.subrange(0, np as int));
    }
    true
}

/// `s` with its trailing whitespace removed.
pub open spec fn trim_end_spec(s: Seq<char>) -> Seq<char>
    decreases s.len(),
{
    if s.len() == 0 {
        s
    } else if is_ws_char(s.last()) {
        trim_end_spec(s.drop_last())
    } else {
        s
    }
}

/// Remove trailing whitespace from `s`.
pub fn trim_end(s: &str) -> (r: &str)
    ensures
        r@ == trim_end_spec(s@),
{
    let n: usize = s.unicode_len();
    let mut k: usize = n;
    proof {
        assert(s@.take(n as int) =~= s@);
    }
    loop
        invariant
            k <= n,
            n == s@.len(),
            trim_end_spec(s@) == trim_end_spec(s@.take(k as int)),
        ensures
            k <= n,
            n == s@.len(),
            trim_end_spec(s@) == trim_end_spec(s@.take(k as int)),
            k == 0 || !is_ws_char(s@[k - 1]),
        decreases k,
    {
        if k == 0 {
            break;
        }
        let c = s.get_char(k - 1);
        if !ws_char(c) {
            break;
        }
        proof {
            assert(s@.take(k as int).last() == s@[k - 1]);
            assert(s@.take(k as int).drop_last() =~= s@.take(k - 1));
        }
        k = k - 1;
    }
    proof {
        if k == 0 {
            assert(s@.take(0) =~= Seq::<char>::empty());
        } else {
            assert(s@.take(k as int).last() == s@[k - 1]);
        }
    }
    s.substring_char(0, k)
}

/// The lines of `s`: the maximal `'\n'`-free runs. A final line break does
/// not produce an empty last line.
pub open spec fn lines_of(s: Seq<char>) -> Seq<Seq<char>>
    decreases s.len(),
{
    if s.len() == 0 {
        Seq::empty()
    } else if s[0] == '\n' {
        seq![Seq::<char>::empty()] + lines_of(s.skip(1))
    } else {
        let rest = lines_of(s.skip(1));
        if rest.len() == 0 {
            seq![seq![s[0]]]
        } else {
            seq![seq![s[0]] + rest[0]] + rest.skip(1)
        }
    }
}

/// Text without a line break is one line (or none, when empty).
proof fn lemma_lines_of_unbroken(t: Seq<char>)
    requires
        forall|i: int| 0 <= i < t.len() ==> t[i] != '\n',
    ensures
        t.len() == 0 ==> lines_of(t) == Seq::<Seq<char>>::empty(),
        t.len() > 0 ==> lines_of(t) == seq![t],
    decreases t.len(),
{
    if t.len() > 0 {
        assert(forall|i: int| 0 <= i < t.skip(1).len() ==> t.skip(1)[i] == t[i + 1]);
        lemma_lines_of_unbroken(t.skip(1));
        if t.len() == 1 {
            assert(t.skip(1) =~= Seq::<char>::empty());
            assert(seq![t[0]] =~= t);
        } else {
            assert(seq![t[0]] + t.skip(1) =~= t);
            assert(lines_of(t) =~= seq![t]);
        }
    }
}

/// Splitting at the first line break: an unbroken run, a break, and the
/// remainder yield that run as a line followed by the remainder's lines.
proof fn lemma_lines_split(t: Seq<char>, rest: Seq<char>)
    requires
        forall|i: int| 0 <= i < t.len() ==> t[i] != '\n',
    ensures
        lines_of(t + seq!['\n'] + rest) == seq![t] + lines_of(rest),
    decreases t.len(),
{
    let u = t + seq!['\n'] + rest;
    if t.len() == 0 {
        assert(u[0] == '\n');
        assert(u.skip(1) =~= rest);
        assert(t =~= Seq::<char>::empty());
        assert(lines_of(u) =~= seq![t] + lines_of(rest));
    } else {
        assert(u[0] == t[0]);
        assert(forall|i: int| 0 <= i < t.skip(1).len() ==> t.skip(1)[i] == t[i + 1]);
        lemma_lines_split(t.skip(1), rest);
        assert(u.skip(1) =~= t.skip(1) + seq!['\n'] + rest);
        let r2 = lines_of(u.skip(1));
        assert(r2 == seq![t.skip(1)] + lines_of(rest));
        assert(r2.len() > 0);
        assert(r2[0] == t.skip(1));
        assert(seq![u[0]] + r2[0] =~= t);
        assert(r2.skip(1) =~= lines_of(rest));
        assert(lines_of(u) =~= seq![t] + lines_of(rest));
    }
}

/// Split text into its lines.
pub fn split_lines(s: &str) -> (r: Vec<String>)
    ensures
        r.deep_view() == lines_of(s@),
{
    let n: usize = s.unicode_len();
    let mut out: Vec<String> = Vec::new();
    let mut start: usize = 0;
    let mut i: usize = 0;
    proof {
        assert(out.deep_view() =~= Seq::<Seq<char>>::empty());
        assert(s@.skip(0) =~= s@);
    }
    while i < n
        invariant
            start <= i <= n,
            n == s@.len(),
            forall|j: int| start <= j < i ==> s@[j] != '\n',
            out.deep_view() + lines_of(s@.skip(start as int)) =~= lines_of(s@),
        decreases n - i,
    {
        let c = s.get_char(i);
        if c == '\n' {
            let ghost seg = s@.subrange(start as int, i as int);
            proof {
                assert(s@.skip(start as int) =~= seg + seq!['\n'] + s@.skip(i + 1));
                lemma_lines_split(seg, s@.skip(i + 1));
            }
            let line = s.substring_char(start, i);
            let ghost pre = out.deep_view();
            out.push(line.to_owned());
            proof {
                assert(out.deep_view() =~= pre.push(seg));
                assert(pre.push(seg) + lines_of(s@.skip(i + 1)) =~= pre + (seq![seg] + lines_of(
                    s@.skip(i + 1),
                )));
            }
            start = i + 1;
        }
        i = i + 1;
    }
    if start < n {
        let ghost seg = s@.subrange(start as int, n as int);
        proof {
            assert(s@.skip(start as int) =~= seg);
            lemma_lines_of_unbroken(seg);
        }
        let line = s.substring_char(start, n);
        let ghost pre = out.deep_view();
        out.push(line.to_owned());
        proof {
            assert(out.deep_view() =~= pre.push(seg));
            assert(pre.push(seg) =~= pre + seq![seg]);
        }
    } else {
        proof {
            assert(s@.skip(start as int) =~= Seq::<char>::empty());
        }
    }
    proof {
        assert(out.deep_view() + Seq::<Seq<char>>::empty() =~= out.deep_view());
    }
    out
}

} // verus!
