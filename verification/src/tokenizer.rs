use crate::token::Token;
use crate::value::Value;
use vstd::prelude::*;

verus! {

/// The whitespace characters the tokenizer skips: space, tab, newline,
/// carriage return.
pub open spec fn is_space_char(c: char) -> bool {
    c == ' ' || c == '\t' || c == '\n' || c == '\r'
}

/// A decimal digit (code points of `'0'` through `'9'`).
pub open spec fn is_digit_char(c: char) -> bool {
    48 <= c as u32 && c as u32 <= 57
}

/// A character that belongs to a numeric-literal run: a digit or a dot.
pub open spec fn is_literal_char(c: char) -> bool {
    is_digit_char(c) || c == '.'
}

/// The numeric value of a digit character.
pub open spec fn digit_val(c: char) -> int
    recommends
        is_digit_char(c),
{
    c as u32 - 48
}

/// The token for a single non-whitespace, non-literal character.
pub open spec fn symbol_token(c: char) -> Token {
    if c == '+' {
        Token::Add
    } else if c == '-' {
        Token::Sub
    } else if c == '*' {
        Token::Mul
    } else if c == '/' {
        Token::Div
    } else if c == '%' {
        Token::Mod
    } else if c == '(' {
        Token::LParen
    } else if c == ')' {
        Token::RParen
    } else {
        Token::Invalid(c)
    }
}

/// How many dots a literal run holds.
pub open spec fn dot_count(run: Seq<char>) -> int
    decreases run.len(),
{
    if run.len() == 0 {
        0
    } else {
        dot_count(run.drop_last()) + if run.last() == '.' {
            1int
        } else {
            0int
        }
    }
}

/// How many digits a literal run holds.
pub open spec fn digit_count(run: Seq<char>) -> int
    decreases run.len(),
{
    if run.len() == 0 {
        0
    } else {
        digit_count(run.drop_last()) + if is_digit_char(run.last()) {
            1int
        } else {
            0int
        }
    }
}

/// The run's digits read as one decimal integer, dots ignored.
pub open spec fn mantissa(run: Seq<char>) -> int
    decreases run.len(),
{
    if run.len() == 0 {
        0
    } else if is_digit_char(run.last()) {
        mantissa(run.drop_last()) * 10 + digit_val(run.last())
    } else {
        mantissa(run.drop_last())
    }
}

/// How many digits stand after the run's first dot.
pub open spec fn frac_len(run: Seq<char>) -> int
    decreases run.len(),
{
    if run.len() == 0 {
        0
    } else if is_digit_char(run.last()) && dot_count(run.drop_last()) >= 1 {
        frac_len(run.drop_last()) + 1
    } else {
        frac_len(run.drop_last())
    }
}

/// Ten to the power `n` (one for non-positive `n`).
pub open spec fn pow10(n: int) -> int
    decreases n,
{
    if n <= 0 {
        1
    } else {
        10 * pow10(n - 1)
    }
}

/// A literal run parses as a number when it has at least one digit and at
/// most one dot, and its value fits the `u128` representation.
pub open spec fn valid_literal(run: Seq<char>) -> bool {
    &&& dot_count(run) <= 1
    &&& digit_count(run) >= 1
    &&& mantissa(run) <= u128::MAX
    &&& pow10(frac_len(run)) <= u128::MAX
}

/// The value of a valid literal run: its digits over ten to the number of
/// fractional digits, so that `"2.5"` denotes twenty-five tenths.
pub open spec fn literal_value(run: Seq<char>) -> Value
    recommends
        valid_literal(run),
{
    Value { neg: false, num: mantissa(run) as u128, den: pow10(frac_len(run)) as u128 }
}

/// The token a literal run produces: its number if it is valid, else a
/// single invalid token carrying the run's first character.
pub open spec fn literal_token(run: Seq<char>) -> Token
    recommends
        run.len() >= 1,
{
    if valid_literal(run) {
        Token::Number(literal_value(run))
    } else {
        Token::Invalid(run[0])
    }
}

/// The first position at or after `i` that does not continue a literal
/// run.
pub open spec fn run_end(s: Seq<char>, i: int) -> int
    decreases s.len() - i,
{
    if 0 <= i < s.len() && is_literal_char(s[i]) {
        run_end(s, i + 1)
    } else {
        i
    }
}

pub proof fn lemma_run_end_bounds(s: Seq<char>, i: int)
    requires
        0 <= i <= s.len(),
    ensures
        i <= run_end(s, i) <= s.len(),
    decreases s.len() - i,
{
    if i < s.len() && is_literal_char(s[i]) {
        lemma_run_end_bounds(s, i + 1);
    }
}

pub proof fn lemma_run_end_chars(s: Seq<char>, i: int)
    requires
        0 <= i <= s.len(),
    ensures
        forall|k: int| i <= k < run_end(s, i) ==> is_literal_char(#[trigger] s[k]),
    decreases s.len() - i,
{
    if i < s.len() && is_literal_char(s[i]) {
        lemma_run_end_chars(s, i + 1);
    }
}

/// The token sequence of the text from position `i` on: whitespace is
/// skipped, a maximal run of digits and dots becomes one token, and any
/// other character is classified on its own.
pub open spec fn spec_scan(s: Seq<char>, i: int) -> Seq<Token>
    decreases s.len() - i,
{
    if i < 0 || i >= s.len() {
        Seq::empty()
    } else if is_space_char(s[i]) {
        spec_scan(s, i + 1)
    } else if is_literal_char(s[i]) {
        let j = run_end(s, i + 1);
        proof {
            lemma_run_end_bounds(s, i + 1);
        }
        seq![literal_token(s.subrange(i, j))] + spec_scan(s, j)
    } else {
        seq![symbol_token(s[i])] + spec_scan(s, i + 1)
    }
}

/// The token sequence of a whole source text.
pub open spec fn spec_tokenize(s: Seq<char>) -> Seq<Token> {
    spec_scan(s, 0)
}

pub proof fn lemma_mantissa_nonneg(run: Seq<char>)
    ensures
        mantissa(run) >= 0,
    decreases run.len(),
{
    if run.len() > 0 {
        lemma_mantissa_nonneg(run.drop_last());
    }
}

pub proof fn lemma_pow10_pos(n: int)
    ensures
        pow10(n) >= 1,
    decreases n,
{
    if n > 0 {
        lemma_pow10_pos(n - 1);
    }
}

pub proof fn lemma_pow10_increases(a: int, b: int)
    requires
        a <= b,
    ensures
        pow10(a) <= pow10(b),
    decreases b - a,
{
    if a < b {
        lemma_pow10_increases(a, b - 1);
        lemma_pow10_pos(b - 1);
    }
}

/// Is `c` a digit or a dot?
fn lit_char(c: char) -> (r: bool)
    ensures
        r == is_literal_char(c),
{
    let u = c as u32;
    (u >= 48 && u <= 57) || c == '.'
}

/// Parse the literal run `src[start..end]` into its token: a number when
/// the run is a valid literal, else an invalid token carrying the run's
/// first character.
fn scan_literal(src: &str, start: usize, end: usize) -> (t: Token)
    requires
        start < end <= src@.len(),
        forall|k: int| start <= k < end ==> is_literal_char(#[trigger] src@[k]),
    ensures
        t == literal_token(src@.subrange(start as int, end as int)),
        t.wf(),
{
    let ghost run = src@.subrange(start as int, end as int);
    let mut dots: usize = 0;
    let mut digits: usize = 0;
    let mut fracs: usize = 0;
    let mut m: u128 = 0;
    let mut over: bool = false;
    let mut k: usize = start;
    while k < end
        invariant
            start <= k <= end <= src@.len(),
            forall|q: int| start <= q < end ==> is_literal_char(#[trigger] src@[q]),
            run == src@.subrange(start as int, end as int),
            dots <= k - start,
            digits <= k - start,
            fracs <= k - start,
            dots as int == dot_count(src@.subrange(start as int, k as int)),
            digits as int == digit_count(src@.subrange(start as int, k as int)),
            fracs as int == frac_len(src@.subrange(start as int, k as int)),
            !over ==> m as int == mantissa(src@.subrange(start as int, k as int)),
            over ==> mantissa(src@.subrange(start as int, k as int)) > u128::MAX,
        decreases end - k,
    {
        let ghost prefix = src@.subrange(start as int, k as int);
        let ghost prefix2 = src@.subrange(start as int, k as int + 1);
        proof {
            assert(prefix2.drop_last() =~= prefix);
            assert(prefix2.last() == src@[k as int]);
            lemma_mantissa_nonneg(prefix);
        }
        let c = src.get_char(k);
        let u = c as u32;
        if u >= 48 && u <= 57 {
            let d = (u - 48) as u128;
            if !over {
                let m10 = m.checked_mul(10);
                match m10 {
                    Some(x) => {
                        match x.checked_add(d) {
                            Some(y) => {
                                m = y;
                            },
                            None => {
                                over = true;
                            },
                        }
                    },
                    None => {
                        over = true;
                    },
                }
            }
            if dots > 0 {
                fracs = fracs + 1;
            }
            digits = digits + 1;
        } else {
            dots = dots + 1;
        }
        k = k + 1;
    }
    proof {
        assert(src@.subrange(start as int, end as int) =~= run);
    }
    if dots <= 1 && digits >= 1 && !over {
        let mut den: u128 = 1;
        let mut t: usize = 0;
        let mut dover: bool = false;
        while t < fracs && !dover
            invariant
                t <= fracs,
                !dover ==> den as int == pow10(t as int),
                dover ==> pow10(fracs as int) > u128::MAX,
            decreases fracs - t,
        {
            match den.checked_mul(10) {
                Some(x) => {
                    den = x;
                },
                None => {
                    proof {
                        lemma_pow10_increases(t as int + 1, fracs as int);
                    }
                    dover = true;
                },
            }
            t = t + 1;
        }
        if dover {
            Token::Invalid(src.get_char(start))
        } else {
            proof {
                lemma_pow10_pos(fracs as int);
                lemma_mantissa_nonneg(run);
            }
            Token::Number(Value { neg: false, num: m, den })
        }
    } else {
        proof {
            lemma_mantissa_nonneg(run);
        }
        Token::Invalid(src.get_char(start))
    }
}

/// Turn source text into its token sequence.  Total: unrecognized input
/// becomes invalid tokens, never an error.
pub fn tokenize(src: &str) -> (tokens: Vec<Token>)
    ensures
        tokens@ == spec_tokenize(src@),
        forall|k: int| 0 <= k < tokens@.len() ==> (#[trigger] tokens@[k]).wf(),
{
    let n = src.unicode_len();
    let mut tokens: Vec<Token> = Vec::new();
    let mut i: usize = 0;
    while i < n
        invariant
            n == src@.len(),
            i <= n,
            spec_tokenize(src@) == tokens@ + spec_scan(src@, i as int),
            forall|k: int| 0 <= k < tokens@.len() ==> (#[trigger] tokens@[k]).wf(),
        decreases n - i,
    {
        let ghost toks0 = tokens@;
        let c = src.get_char(i);
        if c == ' ' || c == '\t' || c == '\n' || c == '\r' {
            i = i + 1;
        } else if lit_char(c) {
            let mut j = i + 1;
            while j < n && lit_char(src.get_char(j))
                invariant
                    n == src@.len(),
                    i + 1 <= j <= n,
                    run_end(src@, i as int + 1) == run_end(src@, j as int),
                decreases n - j,
            {
                j = j + 1;
            }
            proof {
                assert(run_end(src@, j as int) == j as int);
                lemma_run_end_chars(src@, i as int + 1);
            }
            let t = scan_literal(src, i, j);
            tokens.push(t);
            proof {
                assert(tokens@ =~= toks0 + seq![t]);
                assert(toks0 + (seq![t] + spec_scan(src@, j as int)) =~= (toks0 + seq![t])
                    + spec_scan(src@, j as int));
            }
            i = j;
        } else {
            let t = classify_symbol(c);
            tokens.push(t);
            proof {
                assert(tokens@ =~= toks0 + seq![t]);
                assert(toks0 + (seq![t] + spec_scan(src@, i as int + 1)) =~= (toks0 + seq![t])
                    + spec_scan(src@, i as int + 1));
            }
            i = i + 1;
        }
    }
    tokens
}

/// Classify a single non-whitespace, non-literal character.
fn classify_symbol(c: char) -> (t: Token)
    ensures
        t == symbol_token(c),
        t.wf(),
{
    match c {
        '+' => Token::Add,
        '-' => Token::Sub,
        '*' => Token::Mul,
        '/' => Token::Div,
        '%' => Token::Mod,
        '(' => Token::LParen,
        ')' => Token::RParen,
        _ => Token::Invalid(c),
    }
}

/// Whitespace never reaches the token sequence: scanning from the start
/// of a whitespace run gives the same tokens as scanning from its end.
pub proof fn lemma_scan_skips_spaces(s: Seq<char>, i: int, j: int)
    requires
        0 <= i <= j <= s.len(),
        forall|k: int| i <= k < j ==> is_space_char(#[trigger] s[k]),
    ensures
        spec_scan(s, i) == spec_scan(s, j),
    decreases j - i,
{
    if i < j {
        lemma_scan_skips_spaces(s, i + 1, j);
    }
}

pub proof fn lemma_run_end_all(s: Seq<char>, i: int)
    requires
        0 <= i <= s.len(),
        forall|k: int| i <= k < s.len() ==> is_literal_char(#[trigger] s[k]),
    ensures
        run_end(s, i) == s.len(),
    decreases s.len() - i,
{
    if i < s.len() {
        lemma_run_end_all(s, i + 1);
    }
}

/// A text that is one literal run tokenizes to exactly one token: the
/// run's number if it is a valid literal, else one invalid token.
pub proof fn lemma_literal_run_tokenizes(s: Seq<char>)
    requires
        s.len() >= 1,
        forall|k: int| 0 <= k < s.len() ==> is_literal_char(#[trigger] s[k]),
    ensures
        spec_tokenize(s) == seq![literal_token(s)],
{
    assert(is_literal_char(s[0]));
    assert(!is_space_char(s[0]));
    lemma_run_end_all(s, 1);
    assert(s.subrange(0, s.len() as int) =~= s);
    assert(spec_scan(s, s.len() as int) =~= Seq::<Token>::empty());
    assert(spec_tokenize(s) =~= seq![literal_token(s)]);
}

pub proof fn lemma_run_end_stop(s: Seq<char>, i: int)
    requires
        0 <= i <= s.len(),
    ensures
        run_end(s, i) < s.len() ==> !is_literal_char(s[run_end(s, i)]),
    decreases s.len() - i,
{
    if i < s.len() && is_literal_char(s[i]) {
        lemma_run_end_stop(s, i + 1);
    }
}

pub proof fn lemma_run_end_exact(s: Seq<char>, i: int, p: int)
    requires
        0 <= i <= p <= s.len(),
        forall|k: int| i <= k < p ==> is_literal_char(#[trigger] s[k]),
        p == s.len() || !is_literal_char(s[p]),
    ensures
        run_end(s, i) == p,
    decreases p - i,
{
    if i < p {
        lemma_run_end_exact(s, i + 1, p);
    }
}

pub proof fn lemma_run_end_shift(s: Seq<char>, k: int, i: int)
    requires
        0 <= k <= s.len(),
        0 <= i,
    ensures
        run_end(s, k + i) == k + run_end(s.skip(k), i),
    decreases s.len() - (k + i),
{
    if k + i < s.len() && is_literal_char(s[k + i]) {
        assert(s.skip(k)[i] == s[k + i]);
        lemma_run_end_shift(s, k, i + 1);
    } else {
        if i < s.len() - k {
            assert(s.skip(k)[i] == s[k + i]);
        }
    }
}

/// Scanning from position `k` on is scanning the text's tail from its
/// start: the tokens ahead depend only on the characters ahead.
pub proof fn lemma_scan_shift(s: Seq<char>, k: int, i: int)
    requires
        0 <= k <= s.len(),
        0 <= i,
    ensures
        spec_scan(s, k + i) == spec_scan(s.skip(k), i),
    decreases s.len() - (k + i),
{
    let u = s.skip(k);
    if k + i < s.len() {
        assert(u[i] == s[k + i]);
        if is_space_char(s[k + i]) {
            lemma_scan_shift(s, k, i + 1);
        } else if is_literal_char(s[k + i]) {
            lemma_run_end_shift(s, k, i + 1);
            let j = run_end(s, k + i + 1);
            lemma_run_end_bounds(s, k + i + 1);
            assert(s.subrange(k + i, j) =~= u.subrange(i, j - k));
            lemma_scan_shift(s, k, j - k);
        } else {
            lemma_scan_shift(s, k, i + 1);
        }
    }
}

/// Whitespace-insensitivity: inserting a stretch of whitespace anywhere
/// that does not stand between two characters of one literal run leaves
/// the token sequence unchanged.
pub proof fn lemma_tokenize_ignores_whitespace(s1: Seq<char>, ws: Seq<char>, s2: Seq<char>)
    requires
        forall|k: int| 0 <= k < ws.len() ==> is_space_char(#[trigger] ws[k]),
        !(s1.len() > 0 && s2.len() > 0 && is_literal_char(s1.last()) && is_literal_char(s2[0])),
    ensures
        spec_tokenize(s1 + ws + s2) == spec_tokenize(s1 + s2),
    decreases s1.len(),
{
    let u = s1 + ws + s2;
    let v = s1 + s2;
    let m = s1.len() as int;
    if ws.len() == 0 {
        assert(u =~= v);
    } else if s1.len() == 0 {
        assert(forall|k: int| 0 <= k < ws.len() ==> #[trigger] u[k] == ws[k]);
        lemma_scan_skips_spaces(u, 0, ws.len() as int);
        lemma_scan_shift(u, ws.len() as int, 0);
        assert(u.skip(ws.len() as int) =~= s2);
        assert(v =~= s2);
    } else {
        let c = s1[0];
        assert(u[0] == c && v[0] == c);
        if is_space_char(c) {
            lemma_scan_shift(u, 1, 0);
            lemma_scan_shift(v, 1, 0);
            assert(u.skip(1) =~= s1.skip(1) + ws + s2);
            assert(v.skip(1) =~= s1.skip(1) + s2);
            if s1.len() > 1 {
                assert(s1.skip(1).last() == s1.last());
            }
            lemma_tokenize_ignores_whitespace(s1.skip(1), ws, s2);
        } else if is_literal_char(c) {
            // the literal run cannot cross the junction at `m`
            let ju = run_end(u, 1);
            lemma_run_end_bounds(u, 1);
            lemma_run_end_chars(u, 1);
            lemma_run_end_stop(u, 1);
            assert(u[m] == ws[0]);
            assert(!is_literal_char(u[m]));
            assert(ju <= m);
            assert(forall|k: int| 1 <= k < ju ==> #[trigger] v[k] == u[k]);
            if ju < m {
                assert(v[ju] == u[ju]);
                lemma_run_end_exact(v, 1, ju);
            } else {
                // the run covers all of `s1`, whose last character is
                // then a literal character, so `s2` cannot begin with one
                assert(is_literal_char(s1.last()));
                if s2.len() > 0 {
                    assert(v[m] == s2[0]);
                }
                lemma_run_end_exact(v, 1, m);
            }
            assert(run_end(v, 1) == ju);
            assert(u.subrange(0, ju) =~= v.subrange(0, ju));
            lemma_scan_shift(u, ju, 0);
            lemma_scan_shift(v, ju, 0);
            assert(u.skip(ju) =~= s1.skip(ju) + ws + s2);
            assert(v.skip(ju) =~= s1.skip(ju) + s2);
            if ju < s1.len() {
                assert(s1.skip(ju).last() == s1.last());
            }
            lemma_tokenize_ignores_whitespace(s1.skip(ju), ws, s2);
        } else {
            lemma_scan_shift(u, 1, 0);
            lemma_scan_shift(v, 1, 0);
            assert(u.skip(1) =~= s1.skip(1) + ws + s2);
            assert(v.skip(1) =~= s1.skip(1) + s2);
            if s1.len() > 1 {
                assert(s1.skip(1).last() == s1.last());
            }
            lemma_tokenize_ignores_whitespace(s1.skip(1), ws, s2);
        }
    }
}

} // verus!
