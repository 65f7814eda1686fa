use vstd::prelude::*;
use crate::ast::{
    BinaryOperator, ExprV, Expression, IpAddr, IpCidr, Lhs, LogicalExpression, LhsTransformations, LhsV, Predicate, PredicateV, Value,
    ValueV, cidr_valid,
};
use crate::net::{ipv4_text_value, ipv6_text_value, parse_ipv4_text, parse_ipv6_text};
use crate::pattern::{regex_check, regex_new_error};
use crate::text::{chars_of, decimal_text, occurs_at, spaces, string_from_range};

verus! {

pub const LABEL_TERM: &'static str = "term";

pub const LABEL_EXPRESSION: &'static str = "expression";

pub const LABEL_PARENTHESISED: &'static str = "parenthesised expression";

pub const LABEL_PREDICATE: &'static str = "predicate";

pub const LABEL_LHS: &'static str = "lhs";

pub const LABEL_TRANSFORM: &'static str = "transform function";

pub const LABEL_BINARY_OPERATOR: &'static str = "binary operator";

pub const LABEL_REGEX: &'static str = "regex";

pub const LABEL_STRING: &'static str = "string";

pub const LABEL_RAW_STRING: &'static str = "raw string";

pub const LABEL_ESCAPE: &'static str = "escape sequence";

pub const LABEL_INT: &'static str = "int";

pub const LABEL_HEX: &'static str = "hexadecimal integer";

pub const LABEL_DECIMAL: &'static str = "decimal integer";

pub const LABEL_IPV4: &'static str = "ipv4 address";

pub const LABEL_IPV6: &'static str = "ipv6 address";

pub const LABEL_IPV4_CIDR: &'static str = "ipv4 cidr";

pub const LABEL_IPV6_CIDR: &'static str = "ipv6 cidr";

/// A note that a failing reader adds on its way out: what was being read, or what would
/// have been accepted (as it is shown in messages).
#[derive(Debug, Clone, Copy)]
pub enum ErrorContext {
    Label(&'static str),
    Expected(&'static str),
}

/// The mathematical form of an [`ErrorContext`].
pub enum ContextV {
    Label(Seq<char>),
    Expected(Seq<char>),
}

impl View for ErrorContext {
    type V = ContextV;

    open spec fn view(&self) -> ContextV {
        match self {
            ErrorContext::Label(s) => ContextV::Label(s@),
            ErrorContext::Expected(s) => ContextV::Expected(s@),
        }
    }
}

/// Where reading stopped, the notes gathered on the way out, the error of an outside
/// check that refused the text (a regular expression), and whether the failure is final:
/// a final failure is not recovered from by trying another alternative.
#[derive(Debug)]
pub struct Failure {
    pub pos: usize,
    pub contexts: Vec<ErrorContext>,
    pub cause: Option<String>,
    pub cut: bool,
}

/// The mathematical form of a [`Failure`].
pub struct FailureV {
    pub pos: int,
    pub contexts: Seq<ContextV>,
    pub cause: Option<Seq<char>>,
    pub cut: bool,
}

/// The mathematical form of a list of notes.
pub open spec fn contexts_view(v: Seq<ErrorContext>) -> Seq<ContextV> {
    v.map_values(|c: ErrorContext| c@)
}

impl View for Failure {
    type V = FailureV;

    open spec fn view(&self) -> FailureV {
        FailureV {
            pos: self.pos as int,
            contexts: contexts_view(self.contexts@),
            cause: match self.cause {
                Some(c) => Some(c@),
                None => None,
            },
            cut: self.cut,
        }
    }
}

/// A failure at `pos` with nothing noted.
pub open spec fn fail_at(pos: int) -> FailureV {
    FailureV { pos, contexts: Seq::empty(), cause: None, cut: false }
}

/// A failure with one more note.
pub open spec fn add_ctx(f: FailureV, c: ContextV) -> FailureV {
    FailureV { contexts: f.contexts.push(c), ..f }
}

/// A failure made final.
pub open spec fn cut(f: FailureV) -> FailureV {
    FailureV { cut: true, ..f }
}

/// A failure made recoverable again.
pub open spec fn uncut(f: FailureV) -> FailureV {
    FailureV { cut: false, ..f }
}

/// The first alternative that succeeds or fails finally; when all fail recoverably, the
/// failure of the last one.
pub open spec fn or_else<T>(a: Result<(T, int), FailureV>, b: Result<(T, int), FailureV>) -> Result<
    (T, int),
    FailureV,
> {
    match a {
        Ok(x) => Ok(x),
        Err(e) => if e.cut {
            Err(e)
        } else {
            b
        },
    }
}

/// A result of a reader, in mathematical form.
pub open spec fn agrees<T: View>(
    r: Result<(T, usize), Failure>,
    s: Result<(T::V, int), FailureV>,
) -> bool {
    match r {
        Ok((v, j)) => s == Ok::<(T::V, int), FailureV>((v@, j as int)),
        Err(f) => s == Err::<(T::V, int), FailureV>(f@),
    }
}

/// A reader that only reports where it stopped, in mathematical form.
pub open spec fn agrees_pos(r: Result<usize, Failure>, s: Result<int, FailureV>) -> bool {
    match r {
        Ok(j) => s == Ok::<int, FailureV>(j as int),
        Err(f) => s == Err::<int, FailureV>(f@),
    }
}

fn failure(pos: usize) -> (f: Failure)
    ensures
        f@ == fail_at(pos as int),
{
    let f = Failure { pos, contexts: Vec::new(), cause: None, cut: false };
    assert(f@.contexts =~= Seq::<ContextV>::empty());
    f
}

fn with_ctx(f: Failure, c: ErrorContext) -> (g: Failure)
    ensures
        g@ == add_ctx(f@, c@),
{
    let mut f = f;
    let ghost old_ctx = f@.contexts;
    f.contexts.push(c);
    assert(f@.contexts =~= old_ctx.push(c@));
    f
}

fn with_cut(f: Failure) -> (g: Failure)
    ensures
        g@ == cut(f@),
{
    let mut f = f;
    f.cut = true;
    f
}

fn without_cut(f: Failure) -> (g: Failure)
    ensures
        g@ == uncut(f@),
{
    let mut f = f;
    f.cut = false;
    f
}

/// The character at `i` is `c`.
pub open spec fn at(s: Seq<char>, i: int, c: char) -> bool {
    0 <= i < s.len() && s[i] == c
}

fn at_exec(s: &[char], i: usize, c: char) -> (r: bool)
    ensures
        r == at(s@, i as int, c),
{
    i < s.len() && s[i] == c
}

/// Kinds of characters that readers take runs of.
#[derive(Debug, Clone, Copy, PartialEq, Eq, Structural)]
pub enum CharClass {
    Space,
    IdentTail,
    Digit,
    HexDigit,
    OctDigit,
    ColonOrHex,
}

pub open spec fn is_alpha(c: char) -> bool {
    ('a' <= c && c <= 'z') || ('A' <= c && c <= 'Z')
}

pub open spec fn is_digit(c: char) -> bool {
    '0' <= c && c <= '9'
}

pub open spec fn is_hex_digit(c: char) -> bool {
    is_digit(c) || ('a' <= c && c <= 'f') || ('A' <= c && c <= 'F')
}

pub open spec fn is_oct_digit(c: char) -> bool {
    '0' <= c && c <= '7'
}

/// Whether a character is of a kind.
pub open spec fn in_class(c: char, k: CharClass) -> bool {
    match k {
        CharClass::Space => c == ' ' || c == '\t' || c == '\r' || c == '\n',
        CharClass::IdentTail => is_alpha(c) || is_digit(c) || c == '_' || c == '.',
        CharClass::Digit => is_digit(c),
        CharClass::HexDigit => is_hex_digit(c),
        CharClass::OctDigit => is_oct_digit(c),
        CharClass::ColonOrHex => c == ':' || is_hex_digit(c),
    }
}

fn class_has(c: char, k: CharClass) -> (r: bool)
    ensures
        r == in_class(c, k),
{
    match k {
        CharClass::Space => c == ' ' || c == '\t' || c == '\r' || c == '\n',
        CharClass::IdentTail => ('a' <= c && c <= 'z') || ('A' <= c && c <= 'Z') || ('0' <= c && c
            <= '9') || c == '_' || c == '.',
        CharClass::Digit => '0' <= c && c <= '9',
        CharClass::HexDigit => ('0' <= c && c <= '9') || ('a' <= c && c <= 'f') || ('A' <= c && c
            <= 'F'),
        CharClass::OctDigit => '0' <= c && c <= '7',
        CharClass::ColonOrHex => c == ':' || ('0' <= c && c <= '9') || ('a' <= c && c <= 'f') || (
        'A' <= c && c <= 'F'),
    }
}

/// How many characters of kind `k` follow position `i`, counting at most `max`.
pub open spec fn run_len(s: Seq<char>, i: int, k: CharClass, max: int) -> int
    decreases max,
{
    if max <= 0 || i < 0 || i >= s.len() || !in_class(s[i], k) {
        0
    } else {
        1 + run_len(s, i + 1, k, max - 1)
    }
}

proof fn lemma_run_len_bounds(s: Seq<char>, i: int, k: CharClass, max: int)
    requires
        0 <= i <= s.len(),
    ensures
        0 <= run_len(s, i, k, max),
        max >= 0 ==> run_len(s, i, k, max) <= max,
        i + run_len(s, i, k, max) <= s.len(),
        forall|j: int| i <= j < i + run_len(s, i, k, max) ==> in_class(#[trigger] s[j], k),
    decreases max,
{
    if max <= 0 || i >= s.len() || !in_class(s[i], k) {
    } else {
        lemma_run_len_bounds(s, i + 1, k, max - 1);
    }
}

fn run(s: &[char], i: usize, k: CharClass, max: usize) -> (n: usize)
    requires
        i <= s@.len(),
    ensures
        n == run_len(s@, i as int, k, max as int),
        i + n <= s@.len(),
        n <= max,
{
    proof {
        lemma_run_len_bounds(s@, i as int, k, max as int);
    }
    let len = s.len();
    let mut n: usize = 0;
    while n < max && i + n < len && class_has(s[i + n], k)
        invariant
            len == s@.len(),
            i <= s@.len(),
            n <= max,
            i + n <= s@.len(),
            run_len(s@, i as int, k, max as int) == n + run_len(s@, i + n, k, max - n),
        decreases max - n,
    {
        n = n + 1;
    }
    n
}

/// Where the whitespace that starts at `i` ends.
pub open spec fn skip_ws(s: Seq<char>, i: int) -> int {
    i + run_len(s, i, CharClass::Space, s.len() as int)
}

fn skip_ws_exec(s: &[char], i: usize) -> (j: usize)
    requires
        i <= s@.len(),
    ensures
        j == skip_ws(s@, i as int),
        i <= j <= s@.len(),
{
    i + run(s, i, CharClass::Space, s.len())
}

/// An identifier: a letter, then letters, digits, `_` and `.`; reports where it ends.
pub open spec fn spec_ident(s: Seq<char>, i: int) -> Result<int, FailureV> {
    if 0 <= i < s.len() && is_alpha(s[i]) {
        Ok(i + 1 + run_len(s, i + 1, CharClass::IdentTail, s.len() as int))
    } else {
        Err(fail_at(i))
    }
}

fn ident(s: &[char], i: usize) -> (r: Result<usize, Failure>)
    requires
        i <= s@.len(),
    ensures
        agrees_pos(r, spec_ident(s@, i as int)),
        r matches Ok(j) ==> i < j <= s@.len(),
{
    if i < s.len() && (('a' <= s[i] && s[i] <= 'z') || ('A' <= s[i] && s[i] <= 'Z')) {
        Ok(i + 1 + run(s, i + 1, CharClass::IdentTail, s.len()))
    } else {
        Err(failure(i))
    }
}

/// The value of a digit character.
pub open spec fn digit_value(c: char) -> int {
    if is_digit(c) {
        c as int - '0' as int
    } else if 'a' <= c && c <= 'f' {
        c as int - 'a' as int + 10
    } else if 'A' <= c && c <= 'F' {
        c as int - 'A' as int + 10
    } else {
        0
    }
}

/// The number that a run of digits writes in base `radix`.
pub open spec fn digits_value(d: Seq<char>, radix: int) -> int
    decreases d.len(),
{
    if d.len() == 0 {
        0
    } else {
        digits_value(d.drop_last(), radix) * radix + digit_value(d.last())
    }
}

proof fn lemma_digits_grow(d: Seq<char>, radix: int, k: int)
    requires
        radix >= 1,
        0 <= k <= d.len(),
    ensures
        0 <= digits_value(d.take(k), radix) <= digits_value(d, radix),
    decreases d.len(),
{
    if d.len() == 0 {
        assert(d.take(k) =~= d);
    } else if k == d.len() {
        assert(d.take(k) =~= d);
        lemma_digits_grow(d.drop_last(), radix, k - 1);
        let x = digits_value(d.drop_last(), radix);
        let v = digit_value(d.last());
        assert(v >= 0);
        assert(x * radix + v >= 0) by (nonlinear_arith)
            requires
                x >= 0,
                radix >= 1,
                v >= 0,
        ;
    } else {
        lemma_digits_grow(d.drop_last(), radix, k);
        assert(d.drop_last().take(k) =~= d.take(k));
        let x = digits_value(d.drop_last(), radix);
        let v = digit_value(d.last());
        assert(x * radix + v >= x) by (nonlinear_arith)
            requires
                x >= 0,
                radix >= 1,
                v >= 0,
        ;
    }
}

fn digit_value_exec(c: char) -> (r: i64)
    ensures
        r == digit_value(c),
{
    if '0' <= c && c <= '9' {
        (c as u32 - '0' as u32) as i64
    } else if 'a' <= c && c <= 'f' {
        (c as u32 - 'a' as u32 + 10) as i64
    } else if 'A' <= c && c <= 'F' {
        (c as u32 - 'A' as u32 + 10) as i64
    } else {
        0
    }
}

/// The number that `s[from..to]` writes in base `radix`, if it fits an `i64`.
fn read_number(s: &[char], from: usize, to: usize, radix: i64) -> (r: Option<i64>)
    requires
        from <= to <= s@.len(),
        2 <= radix <= 16,
    ensures
        r matches Some(v) ==> v == digits_value(s@.subrange(from as int, to as int), radix as int),
        r is None <==> digits_value(s@.subrange(from as int, to as int), radix as int) > i64::MAX,
{
    let ghost d = s@.subrange(from as int, to as int);
    let mut v: i64 = 0;
    let mut j: usize = from;
    assert(d.take(0) =~= Seq::<char>::empty());
    while j < to
        invariant
            from <= j <= to <= s@.len(),
            2 <= radix <= 16,
            d == s@.subrange(from as int, to as int),
            v == digits_value(d.take(j - from), radix as int),
            0 <= v,
        decreases to - j,
    {
        let dv = digit_value_exec(s[j]);
        assert(d.take(j + 1 - from).drop_last() =~= d.take(j - from));
        assert(d.take(j + 1 - from).last() == s@[j as int]);
        let m = v.checked_mul(radix);
        match m {
            None => {
                proof {
                    lemma_digits_grow(d, radix as int, j + 1 - from);
                    let x = v as int;
                    assert(x * radix + dv >= x * radix) by (nonlinear_arith)
                        requires
                            dv >= 0,
                    ;
                }
                return None;
            },
            Some(m) => {
                let a = m.checked_add(dv);
                match a {
                    None => {
                        proof {
                            lemma_digits_grow(d, radix as int, j + 1 - from);
                        }
                        return None;
                    },
                    Some(a) => {
                        v = a;
                    },
                }
            },
        }
        j = j + 1;
    }
    assert(d.take(to - from) =~= d);
    Some(v)
}

/// An integer: an optional `-`, then hexadecimal digits after `0x`, octal digits after
/// `0`, or decimal digits; a number that does not fit an `i64` is refused.
pub open spec fn spec_int(s: Seq<char>, i: int) -> Result<(i64, int), FailureV> {
    let neg = at(s, i, '-');
    let a = if neg {
        i + 1
    } else {
        i
    };
    let body = spec_int_body(s, a);
    match body {
        Ok((v, j)) => Ok((if neg {
            (-v) as i64
        } else {
            v as i64
        }, j)),
        Err(e) => Err(add_ctx(e, ContextV::Label(LABEL_INT@))),
    }
}

/// The digits of an integer, without its sign.
pub open spec fn spec_int_body(s: Seq<char>, a: int) -> Result<(int, int), FailureV> {
    let hex_n = run_len(s, a + 2, CharClass::HexDigit, s.len() as int);
    let hex_v = digits_value(s.subrange(a + 2, a + 2 + hex_n), 16);
    let oct_n = 1 + run_len(s, a + 2, CharClass::OctDigit, s.len() as int);
    let oct_v = digits_value(s.subrange(a + 1, a + 1 + oct_n), 8);
    let dec_n = run_len(s, a, CharClass::Digit, s.len() as int);
    let dec_v = digits_value(s.subrange(a, a + dec_n), 10);
    if at(s, a, '0') && at(s, a + 1, 'x') && hex_n == 0 {
        Err(cut(add_ctx(fail_at(a + 2), ContextV::Label(LABEL_HEX@))))
    } else if at(s, a, '0') && at(s, a + 1, 'x') && hex_v <= i64::MAX {
        Ok((hex_v, a + 2 + hex_n))
    } else if at(s, a, '0') && a + 1 < s.len() && is_oct_digit(s[a + 1]) && oct_v <= i64::MAX {
        Ok((oct_v, a + 1 + oct_n))
    } else if dec_n > 0 && dec_v <= i64::MAX {
        Ok((dec_v, a + dec_n))
    } else {
        Err(add_ctx(fail_at(a), ContextV::Label(LABEL_DECIMAL@)))
    }
}

fn int_body(s: &[char], a: usize) -> (r: Result<(i64, usize), Failure>)
    requires
        a <= s@.len(),
    ensures
        r matches Err(f) ==> spec_int_body(s@, a as int) == Err::<(int, int), FailureV>(f@),
        r matches Ok((v, j)) ==> a < j <= s@.len() && 0 <= v && spec_int_body(s@, a as int)
            == Ok::<(int, int), FailureV>((v as int, j as int)),
{
    let ghost sv = s@;
    let len = s.len();
    let zero_x = a < len && a + 1 < len && s[a] == '0' && s[a + 1] == 'x';
    if zero_x {
        let n = run(s, a + 2, CharClass::HexDigit, s.len());
        if n == 0 {
            let f = with_cut(with_ctx(failure(a + 2), ErrorContext::Label(LABEL_HEX)));
            return Err(f);
        }
        proof {
            lemma_run_len_bounds(sv, a + 2, CharClass::HexDigit, sv.len() as int);
        }
        match read_number(s, a + 2, a + 2 + n, 16) {
            Some(v) => {
                proof {
                    lemma_digits_grow(sv.subrange(a + 2, a + 2 + n), 16, 0);
                }
                return Ok((v, a + 2 + n));
            },
            None => {},
        }
    }
    if at_exec(s, a, '0') && a + 1 < s.len() && '0' <= s[a + 1] && s[a + 1] <= '7' {
        let n = 1 + run(s, a + 2, CharClass::OctDigit, s.len());
        proof {
            lemma_run_len_bounds(sv, a + 2, CharClass::OctDigit, sv.len() as int);
        }
        match read_number(s, a + 1, a + 1 + n, 8) {
            Some(v) => {
                proof {
                    lemma_digits_grow(sv.subrange(a + 1, a + 1 + n), 8, 0);
                }
                return Ok((v, a + 1 + n));
            },
            None => {},
        }
    }
    let n = run(s, a, CharClass::Digit, s.len());
    if n > 0 {
        match read_number(s, a, a + n, 10) {
            Some(v) => {
                proof {
                    lemma_digits_grow(sv.subrange(a as int, a + n), 10, 0);
                }
                return Ok((v, a + n));
            },
            None => {},
        }
    }
    Err(with_ctx(failure(a), ErrorContext::Label(LABEL_DECIMAL)))
}

fn int_literal(s: &[char], i: usize) -> (r: Result<(i64, usize), Failure>)
    requires
        i <= s@.len(),
    ensures
        agrees(r, spec_int(s@, i as int)),
        r matches Ok((v, j)) ==> i < j <= s@.len(),
{
    let len = s.len();
    let neg = at_exec(s, i, '-');
    let a = if neg {
        i + 1
    } else {
        i
    };
    match int_body(s, a) {
        Ok((v, j)) => {
            if neg {
                Ok((-v, j))
            } else {
                Ok((v, j))
            }
        },
        Err(e) => Err(with_ctx(e, ErrorContext::Label(LABEL_INT))),
    }
}

pub const EXPECTED_BACKSLASH: &'static str = "`\\`";

pub const EXPECTED_QUOTE: &'static str = "`\"`";

pub const EXPECTED_N: &'static str = "`n`";

pub const EXPECTED_R: &'static str = "`r`";

pub const EXPECTED_T: &'static str = "`t`";

pub const EXPECTED_SLASH: &'static str = "`/`";

/// The character that an escape `\c` stands for, if `c` may follow a backslash.
pub open spec fn unescape(c: char) -> Option<char> {
    if c == '\\' {
        Some('\\')
    } else if c == '"' {
        Some('"')
    } else if c == 'n' {
        Some('\n')
    } else if c == 'r' {
        Some('\r')
    } else if c == 't' {
        Some('\t')
    } else {
        None
    }
}

fn unescape_exec(c: char) -> (r: Option<char>)
    ensures
        r == unescape(c),
{
    if c == '\\' {
        Some('\\')
    } else if c == '"' {
        Some('"')
    } else if c == 'n' {
        Some('\n')
    } else if c == 'r' {
        Some('\r')
    } else if c == 't' {
        Some('\t')
    } else {
        None
    }
}

/// The failure of a backslash followed by a character that cannot be escaped.
pub open spec fn escape_failure(p: int) -> FailureV {
    FailureV {
        pos: p,
        contexts: seq![
            ContextV::Label(LABEL_ESCAPE@),
            ContextV::Expected(EXPECTED_BACKSLASH@),
            ContextV::Expected(EXPECTED_QUOTE@),
            ContextV::Expected(EXPECTED_N@),
            ContextV::Expected(EXPECTED_R@),
            ContextV::Expected(EXPECTED_T@),
        ],
        cause: None,
        cut: false,
    }
}

fn escape_failure_exec(p: usize) -> (f: Failure)
    ensures
        f@ == escape_failure(p as int),
{
    let mut f = failure(p);
    f = with_ctx(f, ErrorContext::Label(LABEL_ESCAPE));
    f = with_ctx(f, ErrorContext::Expected(EXPECTED_BACKSLASH));
    f = with_ctx(f, ErrorContext::Expected(EXPECTED_QUOTE));
    f = with_ctx(f, ErrorContext::Expected(EXPECTED_N));
    f = with_ctx(f, ErrorContext::Expected(EXPECTED_R));
    f = with_ctx(f, ErrorContext::Expected(EXPECTED_T));
    assert(f@.contexts =~= escape_failure(p as int).contexts);
    f
}

/// The first `"` or `\` at or after `j`.
pub open spec fn next_quote_or_escape(s: Seq<char>, j: int) -> Option<int>
    decreases s.len() - j,
{
    if j < 0 || j >= s.len() {
        None
    } else if s[j] == '"' || s[j] == '\\' {
        Some(j)
    } else {
        next_quote_or_escape(s, j + 1)
    }
}

proof fn lemma_next_quote_or_escape(s: Seq<char>, j: int)
    requires
        0 <= j,
    ensures
        next_quote_or_escape(s, j) matches Some(k) ==> j <= k < s.len(),
    decreases s.len() - j,
{
    if j < s.len() && !(s[j] == '"' || s[j] == '\\') {
        lemma_next_quote_or_escape(s, j + 1);
    }
}

fn find_quote_or_escape(s: &[char], j: usize) -> (r: Option<usize>)
    requires
        j <= s@.len(),
    ensures
        r matches Some(k) ==> next_quote_or_escape(s@, j as int) == Some(k as int),
        r is None ==> next_quote_or_escape(s@, j as int) is None,
{
    let mut k = j;
    while k < s.len() && s[k] != '"' && s[k] != '\\'
        invariant
            j <= k <= s@.len(),
            next_quote_or_escape(s@, j as int) == next_quote_or_escape(s@, k as int),
        decreases s@.len() - k,
    {
        k = k + 1;
    }
    if k < s.len() {
        Some(k)
    } else {
        None
    }
}

/// The inside of a quoted string from `j` on, with escapes resolved, added to `acc`; it
/// stops before a `"`, and before a run of text after which no `"` or `\` comes.
pub open spec fn string_body(s: Seq<char>, j: int, acc: Seq<char>) -> Result<(Seq<char>, int), FailureV>
    decreases s.len() - j,
{
    if j < 0 || j >= s.len() || s[j] == '"' {
        Ok((acc, j))
    } else if s[j] == '\\' {
        if j + 1 < s.len() && unescape(s[j + 1]) is Some {
            string_body(s, j + 2, acc.push(unescape(s[j + 1])->0))
        } else {
            Err(escape_failure(j + 1))
        }
    } else {
        match next_quote_or_escape(s, j) {
            None => Ok((acc, j)),
            Some(k) => if j < k <= s.len() {
                string_body(s, k, acc + s.subrange(j, k))
            } else {
                Ok((acc, j))
            },
        }
    }
}

/// A quoted string: `"`, text with the escapes `\\ \" \n \r \t`, `"`.
pub open spec fn spec_str(s: Seq<char>, i: int) -> Result<(Seq<char>, int), FailureV> {
    if !at(s, i, '"') {
        Err(add_ctx(fail_at(i), ContextV::Label(LABEL_STRING@)))
    } else {
        match string_body(s, i + 1, Seq::empty()) {
            Err(e) => Err(add_ctx(cut(e), ContextV::Label(LABEL_STRING@))),
            Ok((v, j)) => if at(s, j, '"') {
                Ok((v, j + 1))
            } else {
                Err(
                    add_ctx(
                        cut(add_ctx(fail_at(j), ContextV::Expected(EXPECTED_QUOTE@))),
                        ContextV::Label(LABEL_STRING@),
                    ),
                )
            },
        }
    }
}

fn str_literal(s: &[char], i: usize) -> (r: Result<(String, usize), Failure>)
    requires
        i <= s@.len(),
    ensures
        agrees(r, spec_str(s@, i as int)),
        r matches Ok((v, j)) ==> i < j <= s@.len(),
{
    let len = s.len();
    if !at_exec(s, i, '"') {
        return Err(with_ctx(failure(i), ErrorContext::Label(LABEL_STRING)));
    }
    let ghost sv = s@;
    let mut acc: Vec<char> = Vec::new();
    let mut j = i + 1;
    loop
        invariant
            len == s@.len(),
            sv == s@,
            i < j <= len,
            at(sv, i as int, '"'),
            string_body(sv, i + 1, Seq::empty()) == string_body(sv, j as int, acc@),
        ensures
            i < j <= len,
            string_body(sv, i + 1, Seq::empty()) == Ok::<(Seq<char>, int), FailureV>((acc@, j as int)),
        decreases len - j,
    {
        if j >= len || s[j] == '"' {
            break;
        }
        if s[j] == '\\' {
            let e = if j + 1 < len {
                unescape_exec(s[j + 1])
            } else {
                None
            };
            match e {
                Some(c) => {
                    assert(string_body(sv, j as int, acc@) == string_body(
                        sv,
                        j + 2,
                        acc@.push(c),
                    ));
                    acc.push(c);
                    j = j + 2;
                },
                None => {
                    assert(string_body(sv, j as int, acc@) == Err::<(Seq<char>, int), FailureV>(
                        escape_failure(j + 1),
                    ));
                    let f = escape_failure_exec(j + 1);
                    return Err(with_ctx(with_cut(f), ErrorContext::Label(LABEL_STRING)));
                },
            }
        } else {
            proof {
                lemma_next_quote_or_escape(sv, j + 1);
            }
            match find_quote_or_escape(s, j) {
                None => {
                    break;
                },
                Some(k) => {
                    assert(j < k);
                    let ghost before = acc@;
                    let mut m = j;
                    while m < k
                        invariant
                            j <= m <= k < len,
                            len == s@.len(),
                            sv == s@,
                            acc@ == before + sv.subrange(j as int, m as int),
                        decreases k - m,
                    {
                        acc.push(s[m]);
                        m = m + 1;
                        assert(acc@ =~= before + sv.subrange(j as int, m as int));
                    }
                    assert(string_body(sv, j as int, before) == string_body(sv, k as int, acc@));
                    j = k;
                },
            }
        }
    }
    if at_exec(s, j, '"') {
        let v = crate::text::string_from_chars(acc.as_slice());
        Ok((v, j + 1))
    } else {
        let f = with_cut(with_ctx(failure(j), ErrorContext::Expected(EXPECTED_QUOTE)));
        Err(with_ctx(f, ErrorContext::Label(LABEL_STRING)))
    }
}

/// The first `"#` at or after `j`.
pub open spec fn next_raw_end(s: Seq<char>, j: int) -> Option<int>
    decreases s.len() - j,
{
    if j < 0 || j + 1 >= s.len() {
        None
    } else if s[j] == '"' && s[j + 1] == '#' {
        Some(j)
    } else {
        next_raw_end(s, j + 1)
    }
}

/// A raw string: `r#"`, any text, `"#`.
pub open spec fn spec_raw(s: Seq<char>, i: int) -> Result<(Seq<char>, int), FailureV> {
    if !(at(s, i, 'r') && at(s, i + 1, '#') && at(s, i + 2, '"')) {
        Err(add_ctx(fail_at(i), ContextV::Label(LABEL_RAW_STRING@)))
    } else {
        match next_raw_end(s, i + 3) {
            None => Err(add_ctx(cut(fail_at(i + 3)), ContextV::Label(LABEL_RAW_STRING@))),
            Some(k) => Ok((s.subrange(i + 3, k), k + 2)),
        }
    }
}

fn raw_literal(s: &[char], i: usize) -> (r: Result<(String, usize), Failure>)
    requires
        i <= s@.len(),
    ensures
        agrees(r, spec_raw(s@, i as int)),
        r matches Ok((v, j)) ==> i < j <= s@.len(),
{
    let len = s.len();
    if !(i < len && s[i] == 'r' && i + 1 < len && s[i + 1] == '#' && i + 2 < len && s[i + 2]
        == '"') {
        return Err(with_ctx(failure(i), ErrorContext::Label(LABEL_RAW_STRING)));
    }
    let mut k = i + 3;
    while k < len && k + 1 < len && !(s[k] == '"' && s[k + 1] == '#')
        invariant
            len == s@.len(),
            i + 3 <= k <= len,
            next_raw_end(s@, i + 3) == next_raw_end(s@, k as int),
        decreases len - k,
    {
        k = k + 1;
    }
    if k < len && k + 1 < len {
        Ok((string_from_range(s, i + 3, k), k + 2))
    } else {
        Err(with_ctx(with_cut(failure(i + 3)), ErrorContext::Label(LABEL_RAW_STRING)))
    }
}

/// A quoted or a raw string.
pub open spec fn spec_anystr(s: Seq<char>, i: int) -> Result<(Seq<char>, int), FailureV> {
    if !(0 <= i < s.len()) {
        Err(fail_at(i))
    } else if s[i] == '"' {
        match spec_str(s, i) {
            Err(e) => Err(cut(e)),
            Ok(x) => Ok(x),
        }
    } else if s[i] == 'r' {
        match spec_raw(s, i) {
            Err(e) => Err(cut(e)),
            Ok(x) => Ok(x),
        }
    } else {
        Err(add_ctx(fail_at(i), ContextV::Label(LABEL_STRING@)))
    }
}

fn anystr_literal(s: &[char], i: usize) -> (r: Result<(String, usize), Failure>)
    requires
        i <= s@.len(),
    ensures
        agrees(r, spec_anystr(s@, i as int)),
        r matches Ok((v, j)) ==> i < j <= s@.len(),
{
    if i >= s.len() {
        Err(failure(i))
    } else if s[i] == '"' {
        match str_literal(s, i) {
            Err(e) => Err(with_cut(e)),
            Ok(x) => Ok(x),
        }
    } else if s[i] == 'r' {
        match raw_literal(s, i) {
            Err(e) => Err(with_cut(e)),
            Ok(x) => Ok(x),
        }
    } else {
        Err(with_ctx(failure(i), ErrorContext::Label(LABEL_STRING)))
    }
}

/// Where the text of an IPv4 address that starts at `i` ends: four runs of one to three
/// digits joined by dots. Once the first dot is read, a failure is final.
pub open spec fn spec_ipv4_end(s: Seq<char>, i: int) -> Result<int, FailureV> {
    let o1 = run_len(s, i, CharClass::Digit, 3);
    let p1 = i + o1;
    let o2 = run_len(s, p1 + 1, CharClass::Digit, 3);
    let p2 = p1 + 1 + o2;
    let o3 = run_len(s, p2 + 1, CharClass::Digit, 3);
    let p3 = p2 + 1 + o3;
    let o4 = run_len(s, p3 + 1, CharClass::Digit, 3);
    if o1 == 0 {
        Err(fail_at(i))
    } else if !at(s, p1, '.') {
        Err(fail_at(p1))
    } else if o2 == 0 {
        Err(cut(fail_at(p1 + 1)))
    } else if !at(s, p2, '.') {
        Err(cut(fail_at(p2)))
    } else if o3 == 0 {
        Err(cut(fail_at(p2 + 1)))
    } else if !at(s, p3, '.') {
        Err(cut(fail_at(p3)))
    } else if o4 == 0 {
        Err(cut(fail_at(p3 + 1)))
    } else {
        Ok(p3 + 1 + o4)
    }
}

fn ipv4_end(s: &[char], i: usize) -> (r: Result<usize, Failure>)
    requires
        i <= s@.len(),
    ensures
        agrees_pos(r, spec_ipv4_end(s@, i as int)),
        r matches Ok(j) ==> i < j <= s@.len(),
{
    let len = s.len();
    let o1 = run(s, i, CharClass::Digit, 3);
    let p1 = i + o1;
    if o1 == 0 {
        return Err(failure(i));
    }
    if !at_exec(s, p1, '.') {
        return Err(failure(p1));
    }
    let o2 = run(s, p1 + 1, CharClass::Digit, 3);
    let p2 = p1 + 1 + o2;
    if o2 == 0 {
        return Err(with_cut(failure(p1 + 1)));
    }
    if !at_exec(s, p2, '.') {
        return Err(with_cut(failure(p2)));
    }
    let o3 = run(s, p2 + 1, CharClass::Digit, 3);
    let p3 = p2 + 1 + o3;
    if o3 == 0 {
        return Err(with_cut(failure(p2 + 1)));
    }
    if !at_exec(s, p3, '.') {
        return Err(with_cut(failure(p3)));
    }
    let o4 = run(s, p3 + 1, CharClass::Digit, 3);
    if o4 == 0 {
        return Err(with_cut(failure(p3 + 1)));
    }
    Ok(p3 + 1 + o4)
}

/// An IPv4 address, as a number; the text is read by `core::net::Ipv4Addr`.
pub open spec fn spec_ipv4(s: Seq<char>, i: int) -> Result<(u32, int), FailureV> {
    match spec_ipv4_end(s, i) {
        Err(e) => Err(add_ctx(e, ContextV::Label(LABEL_IPV4@))),
        Ok(j) => match ipv4_text_value(s.subrange(i, j)) {
            Some(v) => Ok((v, j)),
            None => Err(add_ctx(fail_at(i), ContextV::Label(LABEL_IPV4@))),
        },
    }
}

fn ipv4_literal(s: &[char], i: usize) -> (r: Result<(u32, usize), Failure>)
    requires
        i <= s@.len(),
    ensures
        agrees(r, spec_ipv4(s@, i as int)),
        r matches Ok((v, j)) ==> i < j <= s@.len(),
{
    match ipv4_end(s, i) {
        Err(e) => Err(with_ctx(e, ErrorContext::Label(LABEL_IPV4))),
        Ok(j) => {
            let text = string_from_range(s, i, j);
            match parse_ipv4_text(text.as_str()) {
                Some(v) => Ok((v, j)),
                None => Err(with_ctx(failure(i), ErrorContext::Label(LABEL_IPV4))),
            }
        },
    }
}

/// Where the text of an IPv6 address that starts at `i` ends: a `:` or one to four hex
/// digits, a `:`, then every `:` and hex digit that follows.
pub open spec fn spec_ipv6_end(s: Seq<char>, i: int) -> Result<int, FailureV> {
    let a = if at(s, i, ':') {
        i + 1
    } else {
        i + run_len(s, i, CharClass::HexDigit, 4)
    };
    if a == i {
        Err(fail_at(i))
    } else if !at(s, a, ':') {
        Err(fail_at(a))
    } else {
        Ok(a + 1 + run_len(s, a + 1, CharClass::ColonOrHex, s.len() as int))
    }
}

fn ipv6_end(s: &[char], i: usize) -> (r: Result<usize, Failure>)
    requires
        i <= s@.len(),
    ensures
        agrees_pos(r, spec_ipv6_end(s@, i as int)),
        r matches Ok(j) ==> i < j <= s@.len(),
{
    let len = s.len();
    let a = if at_exec(s, i, ':') {
        i + 1
    } else {
        i + run(s, i, CharClass::HexDigit, 4)
    };
    if a == i {
        return Err(failure(i));
    }
    if !at_exec(s, a, ':') {
        return Err(failure(a));
    }
    Ok(a + 1 + run(s, a + 1, CharClass::ColonOrHex, len))
}

/// An IPv6 address, as a number; the text is read by `core::net::Ipv6Addr`.
pub open spec fn spec_ipv6(s: Seq<char>, i: int) -> Result<(u128, int), FailureV> {
    match spec_ipv6_end(s, i) {
        Err(e) => Err(add_ctx(e, ContextV::Label(LABEL_IPV6@))),
        Ok(j) => match ipv6_text_value(s.subrange(i, j)) {
            Some(v) => Ok((v, j)),
            None => Err(add_ctx(fail_at(i), ContextV::Label(LABEL_IPV6@))),
        },
    }
}

fn ipv6_literal(s: &[char], i: usize) -> (r: Result<(u128, usize), Failure>)
    requires
        i <= s@.len(),
    ensures
        agrees(r, spec_ipv6(s@, i as int)),
        r matches Ok((v, j)) ==> i < j <= s@.len(),
{
    match ipv6_end(s, i) {
        Err(e) => Err(with_ctx(e, ErrorContext::Label(LABEL_IPV6))),
        Ok(j) => {
            let text = string_from_range(s, i, j);
            match parse_ipv6_text(text.as_str()) {
                Some(v) => Ok((v, j)),
                None => Err(with_ctx(failure(i), ErrorContext::Label(LABEL_IPV6))),
            }
        },
    }
}

/// The network length after the `/` of a network that begins with `addr` and ends at
/// `j`: at most `digits` digits, at most `255`. A missing or too large length is final; a
/// network that is not valid is not.
pub open spec fn spec_cidr_tail(
    s: Seq<char>,
    i: int,
    addr: IpAddr,
    j: int,
    digits: int,
    label: Seq<char>,
) -> Result<(ValueV, int), FailureV> {
    let n = run_len(s, j + 1, CharClass::Digit, digits);
    let l = digits_value(s.subrange(j + 1, j + 1 + n), 10);
    if !at(s, j, '/') {
        Err(add_ctx(add_ctx(fail_at(j), ContextV::Expected(EXPECTED_SLASH@)), ContextV::Label(label)))
    } else if n == 0 || l > 255 {
        Err(add_ctx(cut(fail_at(j + 1)), ContextV::Label(label)))
    } else if cidr_valid(addr, l as u8) {
        Ok((ValueV::IpCidr(IpCidr::spec_new(addr, l as u8)), j + 1 + n))
    } else {
        Err(add_ctx(fail_at(i), ContextV::Label(label)))
    }
}

fn cidr_tail(s: &[char], i: usize, addr: IpAddr, j: usize, digits: usize, label: &'static str) -> (r:
    Result<(Value, usize), Failure>)
    requires
        i <= j <= s@.len(),
        digits <= 3,
    ensures
        agrees(r, spec_cidr_tail(s@, i as int, addr, j as int, digits as int, label@)),
        r matches Ok((v, k)) ==> j < k <= s@.len(),
{
    let len = s.len();
    if !at_exec(s, j, '/') {
        let f = with_ctx(failure(j), ErrorContext::Expected(EXPECTED_SLASH));
        return Err(with_ctx(f, ErrorContext::Label(label)));
    }
    let n = run(s, j + 1, CharClass::Digit, digits);
    proof {
        lemma_run_len_bounds(s@, j + 1, CharClass::Digit, digits as int);
    }
    if n == 0 {
        return Err(with_ctx(with_cut(failure(j + 1)), ErrorContext::Label(label)));
    }
    let l = match read_number(s, j + 1, j + 1 + n, 10) {
        Some(v) => v,
        None => {
            return Err(with_ctx(with_cut(failure(j + 1)), ErrorContext::Label(label)));
        },
    };
    proof {
        lemma_digits_grow(s@.subrange(j + 1, j + 1 + n), 10, 0);
    }
    if l > 255 {
        return Err(with_ctx(with_cut(failure(j + 1)), ErrorContext::Label(label)));
    }
    match IpCidr::from_parts(addr, l as u8) {
        Some(c) => Ok((Value::IpCidr(c), j + 1 + n)),
        None => Err(with_ctx(failure(i), ErrorContext::Label(label))),
    }
}

/// An IPv4 network: an address, `/`, a length of one or two digits.
pub open spec fn spec_ipv4_cidr(s: Seq<char>, i: int) -> Result<(ValueV, int), FailureV> {
    match spec_ipv4(s, i) {
        Err(e) => Err(add_ctx(uncut(e), ContextV::Label(LABEL_IPV4_CIDR@))),
        Ok((a, j)) => spec_cidr_tail(s, i, IpAddr::V4(a), j, 2, LABEL_IPV4_CIDR@),
    }
}

/// An IPv6 network: an address, `/`, a length of one to three digits.
pub open spec fn spec_ipv6_cidr(s: Seq<char>, i: int) -> Result<(ValueV, int), FailureV> {
    match spec_ipv6(s, i) {
        Err(e) => Err(add_ctx(uncut(e), ContextV::Label(LABEL_IPV6_CIDR@))),
        Ok((a, j)) => spec_cidr_tail(s, i, IpAddr::V6(a), j, 3, LABEL_IPV6_CIDR@),
    }
}

proof fn lemma_run_len_exact(s: Seq<char>, i: int, k: CharClass, max: int, n: int)
    requires
        0 <= i,
        0 <= n <= max,
        i + n <= s.len(),
        forall|x: int| i <= x < i + n ==> in_class(#[trigger] s[x], k),
        n == max || i + n == s.len() || !in_class(s[i + n], k),
    ensures
        run_len(s, i, k, max) == n,
    decreases n,
{
    if n > 0 {
        lemma_run_len_exact(s, i + 1, k, max - 1, n - 1);
    }
}

/// An IPv6 network reads its whole length, up to three digits: when the address read at
/// `i` is followed by `/` and `n` (one to three) decimal digits that no further digit
/// follows, giving a length of at most 128 with which the address is a valid network, the
/// network read is that address with that length, and reading ends after the last digit.
pub proof fn law_ipv6_network_reads_up_to_three_digits(s: Seq<char>, i: int, n: int)
    requires
        0 <= i,
        spec_ipv6(s, i) is Ok,
        1 <= n <= 3,
        ({
            let (a, j) = spec_ipv6(s, i)->Ok_0;
            let l = digits_value(s.subrange(j + 1, j + 1 + n), 10);
            &&& at(s, j, '/')
            &&& j + 1 + n <= s.len()
            &&& forall|x: int| j + 1 <= x < j + 1 + n ==> is_digit(#[trigger] s[x])
            &&& (j + 1 + n == s.len() || !is_digit(s[j + 1 + n]))
            &&& 0 <= l <= 128
            &&& cidr_valid(IpAddr::V6(a), l as u8)
        }),
    ensures
        ({
            let (a, j) = spec_ipv6(s, i)->Ok_0;
            let l = digits_value(s.subrange(j + 1, j + 1 + n), 10);
            spec_ipv6_cidr(s, i) == Ok::<(ValueV, int), FailureV>(
                (ValueV::IpCidr(IpCidr::spec_new(IpAddr::V6(a), l as u8)), j + 1 + n),
            )
        }),
{
    let (a, j) = spec_ipv6(s, i)->Ok_0;
    assert(0 <= j);
    lemma_run_len_exact(s, j + 1, CharClass::Digit, 3, n);
}

/// An IPv4 network reads its whole length, up to two digits: when the address read at `i`
/// is followed by `/` and `n` (one or two) decimal digits that no further digit follows,
/// giving a length with which the address is a valid network, the network read is that
/// address with that length, and reading ends after the last digit.
pub proof fn law_ipv4_network_reads_up_to_two_digits(s: Seq<char>, i: int, n: int)
    requires
        0 <= i,
        spec_ipv4(s, i) is Ok,
        1 <= n <= 2,
        ({
            let (a, j) = spec_ipv4(s, i)->Ok_0;
            let l = digits_value(s.subrange(j + 1, j + 1 + n), 10);
            &&& at(s, j, '/')
            &&& j + 1 + n <= s.len()
            &&& forall|x: int| j + 1 <= x < j + 1 + n ==> is_digit(#[trigger] s[x])
            &&& (j + 1 + n == s.len() || !is_digit(s[j + 1 + n]))
            &&& 0 <= l <= 32
            &&& cidr_valid(IpAddr::V4(a), l as u8)
        }),
    ensures
        ({
            let (a, j) = spec_ipv4(s, i)->Ok_0;
            let l = digits_value(s.subrange(j + 1, j + 1 + n), 10);
            spec_ipv4_cidr(s, i) == Ok::<(ValueV, int), FailureV>(
                (ValueV::IpCidr(IpCidr::spec_new(IpAddr::V4(a), l as u8)), j + 1 + n),
            )
        }),
{
    let (a, j) = spec_ipv4(s, i)->Ok_0;
    assert(0 <= j);
    lemma_run_len_exact(s, j + 1, CharClass::Digit, 2, n);
}

fn ipv4_cidr(s: &[char], i: usize) -> (r: Result<(Value, usize), Failure>)
    requires
        i <= s@.len(),
    ensures
        agrees(r, spec_ipv4_cidr(s@, i as int)),
        r matches Ok((v, j)) ==> i < j <= s@.len(),
{
    match ipv4_literal(s, i) {
        Err(e) => Err(with_ctx(without_cut(e), ErrorContext::Label(LABEL_IPV4_CIDR))),
        Ok((a, j)) => cidr_tail(s, i, IpAddr::V4(a), j, 2, LABEL_IPV4_CIDR),
    }
}

fn ipv6_cidr(s: &[char], i: usize) -> (r: Result<(Value, usize), Failure>)
    requires
        i <= s@.len(),
    ensures
        agrees(r, spec_ipv6_cidr(s@, i as int)),
        r matches Ok((v, j)) ==> i < j <= s@.len(),
{
    match ipv6_literal(s, i) {
        Err(e) => Err(with_ctx(without_cut(e), ErrorContext::Label(LABEL_IPV6_CIDR))),
        Ok((a, j)) => cidr_tail(s, i, IpAddr::V6(a), j, 3, LABEL_IPV6_CIDR),
    }
}

/// A right-hand side value: a string, an IPv4 or IPv6 network, an IPv4 or IPv6 address,
/// or an integer, the first of these that reads.
pub open spec fn spec_rhs(s: Seq<char>, i: int) -> Result<(ValueV, int), FailureV> {
    let string = match spec_anystr(s, i) {
        Ok((v, j)) => Ok((ValueV::String(v), j)),
        Err(e) => Err(e),
    };
    let v4 = match spec_ipv4(s, i) {
        Ok((a, j)) => Ok((ValueV::IpAddr(IpAddr::V4(a)), j)),
        Err(e) => Err(e),
    };
    let v6 = match spec_ipv6(s, i) {
        Ok((a, j)) => Ok((ValueV::IpAddr(IpAddr::V6(a)), j)),
        Err(e) => Err(e),
    };
    let integer = match spec_int(s, i) {
        Ok((v, j)) => Ok((ValueV::Int(v), j)),
        Err(e) => Err(e),
    };
    or_else(
        string,
        or_else(
            spec_ipv4_cidr(s, i),
            or_else(spec_ipv6_cidr(s, i), or_else(v4, or_else(v6, integer))),
        ),
    )
}

fn rhs(s: &[char], i: usize) -> (r: Result<(Value, usize), Failure>)
    requires
        i <= s@.len(),
    ensures
        agrees(r, spec_rhs(s@, i as int)),
        r matches Ok((v, j)) ==> i < j <= s@.len(),
{
    match anystr_literal(s, i) {
        Ok((v, j)) => {
            return Ok((Value::String(v), j));
        },
        Err(e) => {
            if e.cut {
                return Err(e);
            }
        },
    }
    match ipv4_cidr(s, i) {
        Ok(x) => {
            return Ok(x);
        },
        Err(e) => {
            if e.cut {
                return Err(e);
            }
        },
    }
    match ipv6_cidr(s, i) {
        Ok(x) => {
            return Ok(x);
        },
        Err(e) => {
            if e.cut {
                return Err(e);
            }
        },
    }
    match ipv4_literal(s, i) {
        Ok((a, j)) => {
            return Ok((Value::IpAddr(IpAddr::V4(a)), j));
        },
        Err(e) => {
            if e.cut {
                return Err(e);
            }
        },
    }
    match ipv6_literal(s, i) {
        Ok((a, j)) => {
            return Ok((Value::IpAddr(IpAddr::V6(a)), j));
        },
        Err(e) => {
            if e.cut {
                return Err(e);
            }
        },
    }
    match int_literal(s, i) {
        Ok((v, j)) => Ok((Value::Int(v), j)),
        Err(e) => Err(e),
    }
}

/// The right-hand side of `~`: a string that `regex::Regex::new` accepts as a pattern.
pub open spec fn spec_regex_rhs(s: Seq<char>, i: int) -> Result<(ValueV, int), FailureV> {
    match spec_anystr(s, i) {
        Err(e) => Err(add_ctx(e, ContextV::Label(LABEL_REGEX@))),
        Ok((p, j)) => match regex_new_error(p) {
            None => Ok((ValueV::Regex(p), j)),
            Some(m) => Err(
                add_ctx(
                    FailureV { pos: i, contexts: Seq::empty(), cause: Some(m), cut: false },
                    ContextV::Label(LABEL_REGEX@),
                ),
            ),
        },
    }
}

fn regex_rhs(s: &[char], i: usize) -> (r: Result<(Value, usize), Failure>)
    requires
        i <= s@.len(),
    ensures
        agrees(r, spec_regex_rhs(s@, i as int)),
        r matches Ok((v, j)) ==> i < j <= s@.len(),
{
    match anystr_literal(s, i) {
        Err(e) => Err(with_ctx(e, ErrorContext::Label(LABEL_REGEX))),
        Ok((p, j)) => match regex_check(p.as_str()) {
            None => Ok((Value::Regex(p), j)),
            Some(m) => {
                let f = Failure { pos: i, contexts: Vec::new(), cause: Some(m), cut: false };
                assert(f@.contexts =~= Seq::<ContextV>::empty());
                Err(with_ctx(f, ErrorContext::Label(LABEL_REGEX)))
            },
        },
    }
}

pub const EXPECTED_CLOSE: &'static str = "`)`";

pub const EXPECTED_OPEN: &'static str = "`(`";

pub const EXPECTED_LOWER: &'static str = "`lower`";

pub const EXPECTED_ANY: &'static str = "`any`";

pub const WORD_LOWER: &'static str = "lower";

pub const WORD_ANY: &'static str = "any";

/// The failure of a call of a function other than `lower` and `any`.
pub open spec fn transform_failure(i: int) -> FailureV {
    FailureV {
        pos: i,
        contexts: seq![
            ContextV::Label(LABEL_TRANSFORM@),
            ContextV::Expected(EXPECTED_LOWER@),
            ContextV::Expected(EXPECTED_ANY@),
        ],
        cause: None,
        cut: true,
    }
}

/// A left-hand side: a field name, or `lower(..)` or `any(..)` around a left-hand side;
/// the transformations are listed innermost first.
pub open spec fn spec_lhs(s: Seq<char>, i: int) -> Result<(LhsV, int), FailureV>
    decreases s.len() - i,
{
    let plain = match spec_ident(s, i) {
        Ok(j) => Ok((LhsV { var_name: s.subrange(i, j), transformations: Seq::empty() }, j)),
        Err(e) => Err(e),
    };
    let call = match spec_ident(s, i) {
        Err(e) => Err(e),
        Ok(j) => {
            let k = skip_ws(s, j);
            let m = skip_ws(s, k + 1);
            if !at(s, k, '(') {
                Err(fail_at(k))
            } else if !(i < m <= s.len()) {
                Err(fail_at(m))
            } else {
                match spec_lhs(s, m) {
                    Err(e) => Err(cut(e)),
                    Ok((inner, p)) => {
                        let q = skip_ws(s, p);
                        let name = s.subrange(i, j);
                        if !at(s, q, ')') {
                            Err(cut(add_ctx(fail_at(q), ContextV::Expected(EXPECTED_CLOSE@))))
                        } else if name == WORD_LOWER@ {
                            Ok((
                                LhsV {
                                    transformations: inner.transformations.push(
                                        LhsTransformations::Lower,
                                    ),
                                    ..inner
                                },
                                skip_ws(s, q + 1),
                            ))
                        } else if name == WORD_ANY@ {
                            Ok((
                                LhsV {
                                    transformations: inner.transformations.push(
                                        LhsTransformations::Any,
                                    ),
                                    ..inner
                                },
                                skip_ws(s, q + 1),
                            ))
                        } else {
                            Err(transform_failure(i))
                        }
                    },
                }
            }
        },
    };
    match or_else(call, plain) {
        Ok(x) => Ok(x),
        Err(e) => Err(add_ctx(e, ContextV::Label(LABEL_LHS@))),
    }
}

fn word_is(s: &[char], i: usize, j: usize, w: &str) -> (r: bool)
    requires
        i <= j <= s@.len(),
    ensures
        r == (s@.subrange(i as int, j as int) == w@),
{
    let wc = chars_of(w);
    if j - i != wc.len() {
        return false;
    }
    let r = crate::text::matches_at(s, i, wc.as_slice());
    proof {
        if !r {
            assert(s@.subrange(i as int, j as int) != w@);
        }
    }
    r
}

fn lhs(s: &[char], i: usize) -> (r: Result<(Lhs, usize), Failure>)
    requires
        i <= s@.len(),
    ensures
        agrees(r, spec_lhs(s@, i as int)),
        r matches Ok((v, j)) ==> i < j <= s@.len(),
    decreases s@.len() - i,
{
    let len = s.len();
    let call: Result<(Lhs, usize), Failure> = match ident(s, i) {
        Err(e) => Err(e),
        Ok(j) => {
            let k = skip_ws_exec(s, j);
            if !at_exec(s, k, '(') {
                Err(failure(k))
            } else {
                let m = skip_ws_exec(s, k + 1);
                match lhs(s, m) {
                    Err(e) => Err(with_cut(e)),
                    Ok((inner, p)) => {
                        let q = skip_ws_exec(s, p);
                        if !at_exec(s, q, ')') {
                            Err(with_cut(with_ctx(failure(q), ErrorContext::Expected(EXPECTED_CLOSE))))
                        } else if word_is(s, i, j, WORD_LOWER) {
                            let mut l = inner;
                            l.transformations.push(LhsTransformations::Lower);
                            Ok((l, skip_ws_exec(s, q + 1)))
                        } else if word_is(s, i, j, WORD_ANY) {
                            let mut l = inner;
                            l.transformations.push(LhsTransformations::Any);
                            Ok((l, skip_ws_exec(s, q + 1)))
                        } else {
                            let mut f = with_cut(failure(i));
                            f = with_ctx(f, ErrorContext::Label(LABEL_TRANSFORM));
                            f = with_ctx(f, ErrorContext::Expected(EXPECTED_LOWER));
                            f = with_ctx(f, ErrorContext::Expected(EXPECTED_ANY));
                            assert(f@.contexts =~= transform_failure(i as int).contexts);
                            Err(f)
                        }
                    },
                }
            }
        },
    };
    match call {
        Ok(x) => {
            return Ok(x);
        },
        Err(e) => {
            if e.cut {
                return Err(with_ctx(e, ErrorContext::Label(LABEL_LHS)));
            }
        },
    }
    match ident(s, i) {
        Ok(j) => {
            let l = Lhs { var_name: string_from_range(s, i, j), transformations: Vec::new() };
            assert(l@.transformations =~= Seq::<LhsTransformations>::empty());
            Ok((l, j))
        },
        Err(e) => Err(with_ctx(e, ErrorContext::Label(LABEL_LHS))),
    }
}

pub const WORD_NOT: &'static str = "not";

pub const WORD_IN: &'static str = "in";

pub const WORD_CONTAINS: &'static str = "contains";

/// The failure of a missing operator, with every operator expected.
pub open spec fn operator_failure(i: int) -> FailureV {
    FailureV {
        pos: i,
        contexts: seq![
            ContextV::Label(LABEL_BINARY_OPERATOR@),
            ContextV::Expected("`==`"@),
            ContextV::Expected("`!=`"@),
            ContextV::Expected("`~`"@),
            ContextV::Expected("`^=`"@),
            ContextV::Expected("`=^`"@),
            ContextV::Expected("`>=`"@),
            ContextV::Expected("`>`"@),
            ContextV::Expected("`<=`"@),
            ContextV::Expected("`<`"@),
            ContextV::Expected("`not in`"@),
            ContextV::Expected("`in`"@),
            ContextV::Expected("`contains`"@),
        ],
        cause: None,
        cut: false,
    }
}

fn operator_failure_exec(i: usize) -> (f: Failure)
    ensures
        f@ == operator_failure(i as int),
{
    let mut f = with_ctx(failure(i), ErrorContext::Label(LABEL_BINARY_OPERATOR));
    f = with_ctx(f, ErrorContext::Expected("`==`"));
    f = with_ctx(f, ErrorContext::Expected("`!=`"));
    f = with_ctx(f, ErrorContext::Expected("`~`"));
    f = with_ctx(f, ErrorContext::Expected("`^=`"));
    f = with_ctx(f, ErrorContext::Expected("`=^`"));
    f = with_ctx(f, ErrorContext::Expected("`>=`"));
    f = with_ctx(f, ErrorContext::Expected("`>`"));
    f = with_ctx(f, ErrorContext::Expected("`<=`"));
    f = with_ctx(f, ErrorContext::Expected("`<`"));
    f = with_ctx(f, ErrorContext::Expected("`not in`"));
    f = with_ctx(f, ErrorContext::Expected("`in`"));
    f = with_ctx(f, ErrorContext::Expected("`contains`"));
    assert(f@.contexts =~= operator_failure(i as int).contexts);
    f
}

/// A comparison operator; `not` and `in` may be apart.
pub open spec fn spec_operator(s: Seq<char>, i: int) -> Result<(BinaryOperator, int), FailureV> {
    let n = skip_ws(s, i + WORD_NOT@.len());
    if at(s, i, '=') && at(s, i + 1, '=') {
        Ok((BinaryOperator::Equals, i + 2))
    } else if at(s, i, '!') && at(s, i + 1, '=') {
        Ok((BinaryOperator::NotEquals, i + 2))
    } else if at(s, i, '~') {
        Ok((BinaryOperator::Regex, i + 1))
    } else if at(s, i, '^') && at(s, i + 1, '=') {
        Ok((BinaryOperator::Prefix, i + 2))
    } else if at(s, i, '=') && at(s, i + 1, '^') {
        Ok((BinaryOperator::Postfix, i + 2))
    } else if at(s, i, '>') && at(s, i + 1, '=') {
        Ok((BinaryOperator::GreaterOrEqual, i + 2))
    } else if at(s, i, '>') {
        Ok((BinaryOperator::Greater, i + 1))
    } else if at(s, i, '<') && at(s, i + 1, '=') {
        Ok((BinaryOperator::LessOrEqual, i + 2))
    } else if at(s, i, '<') {
        Ok((BinaryOperator::Less, i + 1))
    } else if occurs_at(WORD_NOT@, s, i) && occurs_at(WORD_IN@, s, n) {
        Ok((BinaryOperator::NotIn, n + WORD_IN@.len()))
    } else if occurs_at(WORD_IN@, s, i) {
        Ok((BinaryOperator::In, i + WORD_IN@.len()))
    } else if occurs_at(WORD_CONTAINS@, s, i) {
        Ok((BinaryOperator::Contains, i + WORD_CONTAINS@.len()))
    } else {
        Err(operator_failure(i))
    }
}

fn binary_operator(s: &[char], i: usize) -> (r: Result<(BinaryOperator, usize), Failure>)
    requires
        i <= s@.len(),
    ensures
        agrees(r, spec_operator(s@, i as int)),
        r matches Ok((v, j)) ==> i < j <= s@.len(),
{
    let len = s.len();
    let c0 = if i < len {
        s[i]
    } else {
        ' '
    };
    let c1 = if i < len && i + 1 < len {
        s[i + 1]
    } else {
        ' '
    };
    proof {
        reveal_strlit("in");
        reveal_strlit("contains");
    }
    let not_w = chars_of(WORD_NOT);
    let in_w = chars_of(WORD_IN);
    let contains_w = chars_of(WORD_CONTAINS);
    if i < len && c0 == '=' && i + 1 < len && c1 == '=' {
        Ok((BinaryOperator::Equals, i + 2))
    } else if i < len && c0 == '!' && i + 1 < len && c1 == '=' {
        Ok((BinaryOperator::NotEquals, i + 2))
    } else if i < len && c0 == '~' {
        Ok((BinaryOperator::Regex, i + 1))
    } else if i < len && c0 == '^' && i + 1 < len && c1 == '=' {
        Ok((BinaryOperator::Prefix, i + 2))
    } else if i < len && c0 == '=' && i + 1 < len && c1 == '^' {
        Ok((BinaryOperator::Postfix, i + 2))
    } else if i < len && c0 == '>' && i + 1 < len && c1 == '=' {
        Ok((BinaryOperator::GreaterOrEqual, i + 2))
    } else if i < len && c0 == '>' {
        Ok((BinaryOperator::Greater, i + 1))
    } else if i < len && c0 == '<' && i + 1 < len && c1 == '=' {
        Ok((BinaryOperator::LessOrEqual, i + 2))
    } else if i < len && c0 == '<' {
        Ok((BinaryOperator::Less, i + 1))
    } else {
        let has_not = crate::text::matches_at(s, i, not_w.as_slice());
        if has_not {
            let n = skip_ws_exec(s, i + not_w.len());
            if crate::text::matches_at(s, n, in_w.as_slice()) {
                return Ok((BinaryOperator::NotIn, n + in_w.len()));
            }
        }
        if crate::text::matches_at(s, i, in_w.as_slice()) {
            Ok((BinaryOperator::In, i + in_w.len()))
        } else if crate::text::matches_at(s, i, contains_w.as_slice()) {
            Ok((BinaryOperator::Contains, i + contains_w.len()))
        } else {
            Err(operator_failure_exec(i))
        }
    }
}

/// A predicate: a left-hand side, an operator, and a right-hand side; a failure inside a
/// predicate is final.
pub open spec fn spec_predicate(s: Seq<char>, i: int) -> Result<(PredicateV, int), FailureV> {
    let r = match spec_lhs(s, i) {
        Err(e) => Err(e),
        Ok((l, j)) => match spec_operator(s, skip_ws(s, j)) {
            Err(e) => Err(e),
            Ok((op, m)) => {
                let v = if op == BinaryOperator::Regex {
                    spec_regex_rhs(s, skip_ws(s, m))
                } else {
                    spec_rhs(s, skip_ws(s, m))
                };
                match v {
                    Err(e) => Err(e),
                    Ok((rhs, p)) => Ok((PredicateV { lhs: l, op, rhs }, p)),
                }
            },
        },
    };
    match r {
        Ok(x) => Ok(x),
        Err(e) => Err(add_ctx(cut(e), ContextV::Label(LABEL_PREDICATE@))),
    }
}

fn predicate(s: &[char], i: usize) -> (r: Result<(Predicate, usize), Failure>)
    requires
        i <= s@.len(),
    ensures
        agrees(r, spec_predicate(s@, i as int)),
        r matches Ok((v, j)) ==> i < j <= s@.len(),
{
    let r: Result<(Predicate, usize), Failure> = match lhs(s, i) {
        Err(e) => Err(e),
        Ok((l, j)) => match binary_operator(s, skip_ws_exec(s, j)) {
            Err(e) => Err(e),
            Ok((op, m)) => {
                let n = skip_ws_exec(s, m);
                let v = if op == BinaryOperator::Regex {
                    regex_rhs(s, n)
                } else {
                    rhs(s, n)
                };
                match v {
                    Err(e) => Err(e),
                    Ok((rv, p)) => Ok((Predicate { lhs: l, op, rhs: rv }, p)),
                }
            },
        },
    };
    match r {
        Ok(x) => Ok(x),
        Err(e) => Err(with_ctx(with_cut(e), ErrorContext::Label(LABEL_PREDICATE))),
    }
}

/// A whole expression, noted as such when it fails.
pub open spec fn spec_expression(s: Seq<char>, i: int) -> Result<(ExprV, int), FailureV>
    decreases s.len() - i, 5int,
{
    if !(0 <= i <= s.len()) {
        Err(fail_at(i))
    } else {
        match spec_expr(s, i, 0) {
            Ok(x) => Ok(x),
            Err(e) => Err(add_ctx(e, ContextV::Label(LABEL_EXPRESSION@))),
        }
    }
}

/// An operand, then the operators that bind at least as tightly as `min_power`: `&&`
/// binds with power 1 and `||` with power 2, each grouping to the left.
pub open spec fn spec_expr(s: Seq<char>, i: int, min_power: int) -> Result<(ExprV, int), FailureV>
    decreases s.len() - i, 4int,
{
    if !(0 <= i <= s.len()) {
        Err(fail_at(i))
    } else {
        match spec_operand(s, i) {
            Err(e) => Err(e),
            Ok(None) => Err(fail_at(i)),
            Ok(Some((t, j))) => if i <= j <= s.len() {
                spec_infix(s, j, t, min_power)
            } else {
                Err(fail_at(j))
            },
        }
    }
}

/// A term between optional whitespace; `None` when no term starts here.
pub open spec fn spec_operand(s: Seq<char>, i: int) -> Result<Option<(ExprV, int)>, FailureV>
    decreases s.len() - i, 3int,
{
    let a = skip_ws(s, i);
    if !(0 <= i <= a <= s.len()) {
        Err(fail_at(a))
    } else {
        match spec_term(s, a) {
            Ok((t, b)) => Ok(Some((t, skip_ws(s, b)))),
            Err(e) => if e.cut {
                Err(e)
            } else {
                Ok(None)
            },
        }
    }
}

/// The binding power of the operator at `j`: 1 for `&&`, 2 for `||`, 0 for none.
pub open spec fn power_at(s: Seq<char>, j: int) -> int {
    if at(s, j, '&') && at(s, j + 1, '&') {
        1
    } else if at(s, j, '|') && at(s, j + 1, '|') {
        2
    } else {
        0
    }
}

/// The operators after an operand `lhs` that ends at `j`.
pub open spec fn spec_infix(s: Seq<char>, j: int, lhs: ExprV, min_power: int) -> Result<
    (ExprV, int),
    FailureV,
>
    decreases s.len() - j, 2int,
{
    let p = power_at(s, j);
    if !(0 <= j <= s.len()) {
        Err(fail_at(j))
    } else if p == 0 || p < min_power || j + 2 > s.len() {
        Ok((lhs, j))
    } else {
        match spec_expr(s, j + 2, p + 1) {
            Err(e) => Err(e),
            Ok((r, k)) => {
                let e = if p == 1 {
                    ExprV::And(Box::new(lhs), Box::new(r))
                } else {
                    ExprV::Or(Box::new(lhs), Box::new(r))
                };
                if j + 2 <= k <= s.len() {
                    spec_infix(s, k, e, min_power)
                } else {
                    Err(fail_at(k))
                }
            },
        }
    }
}

/// A term: a parenthesised expression, possibly negated, or a predicate.
pub open spec fn spec_term(s: Seq<char>, i: int) -> Result<(ExprV, int), FailureV>
    decreases s.len() - i, 1int,
{
    let r = if !(0 <= i < s.len()) {
        Err(fail_at(i))
    } else if s[i] == '!' || s[i] == '(' {
        spec_paren(s, i)
    } else {
        match spec_predicate(s, i) {
            Ok((p, j)) => Ok((ExprV::Pred(p), j)),
            Err(e) => Err(e),
        }
    };
    match r {
        Ok(x) => Ok(x),
        Err(e) => Err(add_ctx(e, ContextV::Label(LABEL_TERM@))),
    }
}

/// An optional `!`, then an expression in parentheses; failures inside are final.
pub open spec fn spec_paren(s: Seq<char>, i: int) -> Result<(ExprV, int), FailureV>
    decreases s.len() - i, 0int,
{
    let neg = at(s, i, '!');
    let a = if neg {
        i + 1
    } else {
        i
    };
    let b = skip_ws(s, a);
    let c = skip_ws(s, b + 1);
    let r = if !at(s, b, '(') {
        Err(cut(add_ctx(fail_at(b), ContextV::Expected(EXPECTED_OPEN@))))
    } else if !(0 <= i < c <= s.len()) {
        Err(fail_at(c))
    } else {
        match spec_expression(s, c) {
            Err(e) => Err(cut(e)),
            Ok((e, d)) => {
                let f = skip_ws(s, d);
                if at(s, f, ')') {
                    Ok((
                        if neg {
                            ExprV::Not(Box::new(e))
                        } else {
                            e
                        },
                        f + 1,
                    ))
                } else {
                    Err(cut(add_ctx(fail_at(f), ContextV::Expected(EXPECTED_CLOSE@))))
                }
            },
        }
    };
    match r {
        Ok(x) => Ok(x),
        Err(e) => Err(add_ctx(e, ContextV::Label(LABEL_PARENTHESISED@))),
    }
}

fn expression(s: &[char], i: usize) -> (r: Result<(Expression, usize), Failure>)
    requires
        i <= s@.len(),
    ensures
        agrees(r, spec_expression(s@, i as int)),
        r matches Ok((v, j)) ==> i < j <= s@.len(),
    decreases s@.len() - i, 5int,
{
    match expr(s, i, 0) {
        Ok(x) => Ok(x),
        Err(e) => Err(with_ctx(e, ErrorContext::Label(LABEL_EXPRESSION))),
    }
}

fn expr(s: &[char], i: usize, min_power: usize) -> (r: Result<(Expression, usize), Failure>)
    requires
        i <= s@.len(),
        min_power <= 3,
    ensures
        agrees(r, spec_expr(s@, i as int, min_power as int)),
        r matches Ok((v, j)) ==> i < j <= s@.len(),
    decreases s@.len() - i, 4int,
{
    match operand(s, i) {
        Err(e) => Err(e),
        Ok(None) => Err(failure(i)),
        Ok(Some((t, j))) => infix(s, j, t, min_power),
    }
}

fn operand(s: &[char], i: usize) -> (r: Result<Option<(Expression, usize)>, Failure>)
    requires
        i <= s@.len(),
    ensures
        r matches Err(f) ==> spec_operand(s@, i as int) == Err::<Option<(ExprV, int)>, FailureV>(
            f@,
        ),
        r matches Ok(None) ==> spec_operand(s@, i as int) == Ok::<Option<(ExprV, int)>, FailureV>(
            None,
        ),
        r matches Ok(Some((t, j))) ==> i < j <= s@.len() && spec_operand(s@, i as int) == Ok::<
            Option<(ExprV, int)>,
            FailureV,
        >(Some((t@, j as int))),
    decreases s@.len() - i, 3int,
{
    let a = skip_ws_exec(s, i);
    match term(s, a) {
        Ok((t, b)) => Ok(Some((t, skip_ws_exec(s, b)))),
        Err(e) => {
            if e.cut {
                Err(e)
            } else {
                Ok(None)
            }
        },
    }
}

fn infix(s: &[char], j: usize, lhs: Expression, min_power: usize) -> (r: Result<
    (Expression, usize),
    Failure,
>)
    requires
        j <= s@.len(),
        min_power <= 3,
    ensures
        agrees(r, spec_infix(s@, j as int, lhs@, min_power as int)),
        r matches Ok((v, k)) ==> j <= k <= s@.len(),
    decreases s@.len() - j, 2int,
{
    let len = s.len();
    let p: usize = if j < len && s[j] == '&' && j + 1 < len && s[j + 1] == '&' {
        1
    } else if j < len && s[j] == '|' && j + 1 < len && s[j + 1] == '|' {
        2
    } else {
        0
    };
    assert(p == power_at(s@, j as int));
    if p == 0 || p < min_power || j + 2 > len {
        return Ok((lhs, j));
    }
    match expr(s, j + 2, p + 1) {
        Err(e) => Err(e),
        Ok((r, k)) => {
            let e = if p == 1 {
                Expression::Logical(Box::new(LogicalExpression::And(lhs, r)))
            } else {
                Expression::Logical(Box::new(LogicalExpression::Or(lhs, r)))
            };
            infix(s, k, e, min_power)
        },
    }
}

fn term(s: &[char], i: usize) -> (r: Result<(Expression, usize), Failure>)
    requires
        i <= s@.len(),
    ensures
        agrees(r, spec_term(s@, i as int)),
        r matches Ok((v, j)) ==> i < j <= s@.len(),
    decreases s@.len() - i, 1int,
{
    let r: Result<(Expression, usize), Failure> = if i >= s.len() {
        Err(failure(i))
    } else if s[i] == '!' || s[i] == '(' {
        paren(s, i)
    } else {
        match predicate(s, i) {
            Ok((p, j)) => Ok((Expression::Predicate(p), j)),
            Err(e) => Err(e),
        }
    };
    match r {
        Ok(x) => Ok(x),
        Err(e) => Err(with_ctx(e, ErrorContext::Label(LABEL_TERM))),
    }
}

fn paren(s: &[char], i: usize) -> (r: Result<(Expression, usize), Failure>)
    requires
        i <= s@.len(),
    ensures
        agrees(r, spec_paren(s@, i as int)),
        r matches Ok((v, j)) ==> i < j <= s@.len(),
    decreases s@.len() - i, 0int,
{
    let len = s.len();
    let neg = at_exec(s, i, '!');
    let a = if neg {
        i + 1
    } else {
        i
    };
    let b = skip_ws_exec(s, a);
    let r: Result<(Expression, usize), Failure> = if !at_exec(s, b, '(') {
        Err(with_cut(with_ctx(failure(b), ErrorContext::Expected(EXPECTED_OPEN))))
    } else {
        let c = skip_ws_exec(s, b + 1);
        match expression(s, c) {
            Err(e) => Err(with_cut(e)),
            Ok((e, d)) => {
                let f = skip_ws_exec(s, d);
                if at_exec(s, f, ')') {
                    let v = if neg {
                        Expression::Logical(Box::new(LogicalExpression::Not(e)))
                    } else {
                        e
                    };
                    Ok((v, f + 1))
                } else {
                    Err(with_cut(with_ctx(failure(f), ErrorContext::Expected(EXPECTED_CLOSE))))
                }
            },
        }
    };
    match r {
        Ok(x) => Ok(x),
        Err(e) => Err(with_ctx(e, ErrorContext::Label(LABEL_PARENTHESISED))),
    }
}

pub const EXPECTED_EOF: &'static str = "eof";

pub const EXPECTED_AND: &'static str = "`&&`";

pub const EXPECTED_OR: &'static str = "`||`";

/// The failure of text left after a complete expression.
pub open spec fn trailing_failure(j: int) -> FailureV {
    add_ctx(
        add_ctx(
            add_ctx(fail_at(j), ContextV::Expected(EXPECTED_EOF@)),
            ContextV::Expected(EXPECTED_AND@),
        ),
        ContextV::Expected(EXPECTED_OR@),
    )
}

/// The whole text read as one expression.
pub open spec fn spec_parse(s: Seq<char>) -> Result<ExprV, FailureV> {
    match spec_expression(s, 0) {
        Err(e) => Err(e),
        Ok((e, j)) => if j == s.len() {
            Ok(e)
        } else {
            Err(trailing_failure(j))
        },
    }
}

/// The first note that tells what was being read, if any.
pub open spec fn first_label(cs: Seq<ContextV>) -> Option<Seq<char>>
    decreases cs.len(),
{
    if cs.len() == 0 {
        None
    } else {
        match first_label(cs.drop_last()) {
            Some(l) => Some(l),
            None => match cs.last() {
                ContextV::Label(l) => Some(l),
                ContextV::Expected(_) => None,
            },
        }
    }
}

/// The notes that tell what would have been accepted, in order.
pub open spec fn expected_items(cs: Seq<ContextV>) -> Seq<Seq<char>>
    decreases cs.len(),
{
    if cs.len() == 0 {
        Seq::empty()
    } else {
        match cs.last() {
            ContextV::Expected(e) => expected_items(cs.drop_last()).push(e),
            ContextV::Label(_) => expected_items(cs.drop_last()),
        }
    }
}

/// Texts joined by `, `.
pub open spec fn join_items(items: Seq<Seq<char>>) -> Seq<char>
    decreases items.len(),
{
    if items.len() == 0 {
        Seq::empty()
    } else if items.len() == 1 {
        items[0]
    } else {
        join_items(items.drop_last()) + ", "@ + items.last()
    }
}

/// What a failure says: `invalid` and the first label, `expected` and the accepted
/// texts, and the outside error, each on a line of its own.
pub open spec fn failure_message(f: FailureV) -> Seq<char> {
    let label = first_label(f.contexts);
    let items = expected_items(f.contexts);
    let part1 = match label {
        Some(l) => "invalid "@ + l,
        None => Seq::empty(),
    };
    let part2 = if items.len() > 0 {
        (if label is Some {
            seq!['\n']
        } else {
            Seq::empty()
        }) + "expected "@ + join_items(items)
    } else {
        Seq::empty()
    };
    let part3 = match f.cause {
        Some(c) => (if label is Some || items.len() > 0 {
            seq!['\n']
        } else {
            Seq::empty()
        }) + c,
        None => Seq::empty(),
    };
    part1 + part2 + part3
}

fn failure_message_exec(f: &Failure) -> (m: String)
    ensures
        m@ == failure_message(f@),
{
    let ghost cs = f@.contexts;
    let mut label: Option<&'static str> = None;
    let mut items: Vec<&'static str> = Vec::new();
    let mut i: usize = 0;
    while i < f.contexts.len()
        invariant
            cs == contexts_view(f.contexts@),
            i <= cs.len(),
            match label {
                Some(l) => first_label(cs.take(i as int)) == Some(l@),
                None => first_label(cs.take(i as int)) is None,
            },
            items@.map_values(|x: &'static str| x@) == expected_items(cs.take(i as int)),
        decreases cs.len() - i,
    {
        assert(cs.take(i + 1).drop_last() =~= cs.take(i as int));
        assert(cs.take(i + 1).last() == f.contexts@[i as int]@);
        match f.contexts[i] {
            ErrorContext::Label(l) => {
                if label.is_none() {
                    label = Some(l);
                }
            },
            ErrorContext::Expected(e) => {
                items.push(e);
                assert(items@.map_values(|x: &'static str| x@) =~= expected_items(
                    cs.take(i as int),
                ).push(e@));
            },
        }
        i = i + 1;
    }
    assert(cs.take(cs.len() as int) =~= cs);
    let ghost ev = items@.map_values(|x: &'static str| x@);
    let mut m = String::new();
    let has_label = label.is_some();
    match label {
        Some(l) => {
            crate::text::push_str(&mut m, "invalid ");
            crate::text::push_str(&mut m, l);
        },
        None => {},
    }
    let ghost part1 = m@;
    if items.len() > 0 {
        if has_label {
            m.push('\n');
        }
        crate::text::push_str(&mut m, "expected ");
        let ghost before = m@;
        let mut k: usize = 0;
        while k < items.len()
            invariant
                k <= items@.len(),
                ev == items@.map_values(|x: &'static str| x@),
                m@ == before + join_items(ev.take(k as int)),
            decreases items@.len() - k,
        {
            assert(ev.take(k + 1).drop_last() =~= ev.take(k as int));
            if k > 0 {
                crate::text::push_str(&mut m, ", ");
            }
            crate::text::push_str(&mut m, items[k]);
            k = k + 1;
            proof {
                if k == 1 {
                    assert(ev.take(1) =~= seq![ev[0]]);
                }
            }
            assert(m@ =~= before + join_items(ev.take(k as int)));
        }
        assert(ev.take(ev.len() as int) =~= ev);
    }
    match &f.cause {
        Some(c) => {
            if has_label || items.len() > 0 {
                m.push('\n');
            }
            crate::text::push_str(&mut m, c.as_str());
        },
        None => {},
    }
    assert(m@ =~= failure_message(f@));
    m
}

/// How many bytes UTF-8 takes for a character.
pub open spec fn utf8_width(c: char) -> nat {
    if (c as u32) < 0x80 {
        1
    } else if (c as u32) < 0x800 {
        2
    } else if (c as u32) < 0x10000 {
        3
    } else {
        4
    }
}

/// How many bytes UTF-8 takes for a text.
pub open spec fn utf8_len(s: Seq<char>) -> nat
    decreases s.len(),
{
    if s.len() == 0 {
        0
    } else {
        utf8_len(s.drop_last()) + utf8_width(s.last())
    }
}

fn utf8_len_exec(s: &[char], from: usize, to: usize) -> (n: u128)
    requires
        from <= to <= s@.len(),
    ensures
        n == utf8_len(s@.subrange(from as int, to as int)),
        n <= 4 * (to - from),
{
    let ghost d = s@.subrange(from as int, to as int);
    let mut n: u128 = 0;
    let mut j = from;
    assert(d.take(0) =~= Seq::<char>::empty());
    while j < to
        invariant
            from <= j <= to <= s@.len(),
            d == s@.subrange(from as int, to as int),
            n == utf8_len(d.take(j - from)),
            n <= 4 * (j - from),
        decreases to - j,
    {
        assert(d.take(j + 1 - from).drop_last() =~= d.take(j - from));
        let c = s[j];
        let w: u128 = if (c as u32) < 0x80 {
            1
        } else if (c as u32) < 0x800 {
            2
        } else if (c as u32) < 0x10000 {
            3
        } else {
            4
        };
        n = n + w;
        j = j + 1;
    }
    assert(d.take(to - from) =~= d);
    n
}

/// Where the line that holds position `p` starts.
pub open spec fn line_start_before(s: Seq<char>, p: int) -> int
    decreases p,
{
    if p <= 0 || p > s.len() {
        0
    } else if s[p - 1] == '\n' {
        p
    } else {
        line_start_before(s, p - 1)
    }
}

/// How many line breaks come before position `p`.
pub open spec fn newlines_before(s: Seq<char>, p: int) -> nat
    decreases p,
{
    if p <= 0 || p > s.len() {
        0
    } else {
        newlines_before(s, p - 1) + if s[p - 1] == '\n' {
            1nat
        } else {
            0nat
        }
    }
}

/// Where the line that starts at `p` ends.
pub open spec fn line_end_from(s: Seq<char>, p: int) -> int
    decreases s.len() - p,
{
    if p < 0 || p >= s.len() || s[p] == '\n' {
        p
    } else {
        line_end_from(s, p + 1)
    }
}

/// The line (from zero), the column (from zero) and the start of the line that a message
/// shows for position `pos` of a text of several lines. A column counts characters when
/// the character at `pos` is ASCII, and bytes otherwise; at the end of the text it counts
/// the characters of the last line and one more.
pub open spec fn line_and_column(s: Seq<char>, pos: int) -> (nat, nat, int) {
    if pos < s.len() {
        let ls = line_start_before(s, pos);
        let col = if (s[pos] as u32) < 0x80 {
            (pos - ls) as nat
        } else {
            utf8_len(s.subrange(ls, pos))
        };
        (newlines_before(s, ls), col, ls)
    } else {
        let ls = line_start_before(s, s.len() - 1);
        (newlines_before(s, ls), (s.len() - ls) as nat, ls)
    }
}

/// The text holds a line break.
pub open spec fn has_newline(s: Seq<char>) -> bool {
    exists|i: int| 0 <= i < s.len() && s[i] == '\n'
}

/// The message of a failure on a text: the text with a caret under the failing position
/// (on a text of several lines, the failing line with its number and column), then what
/// the failure says.
pub open spec fn render(s: Seq<char>, f: FailureV) -> Seq<char> {
    let msg = failure_message(f);
    let pos = if f.pos < 0 {
        0
    } else if f.pos > s.len() {
        s.len() as int
    } else {
        f.pos
    };
    if has_newline(s) {
        let (line, col, ls) = line_and_column(s, pos);
        let num = decimal_text(line + 1);
        let gutter = spaces(num.len());
        "parse error at line "@ + num + ", column "@ + decimal_text(col + 1) + seq!['\n'] + gutter
            + " |"@ + seq!['\n'] + num + " | "@ + s.subrange(ls, line_end_from(s, ls)) + seq!['\n']
            + gutter + " | "@ + spaces(col) + seq!['^', '\n'] + msg
    } else {
        s + seq!['\n'] + spaces(utf8_len(s.take(pos))) + seq!['^', '\n'] + msg
    }
}

/// A text that does not read as an expression, and why.
#[derive(Debug)]
pub struct ParseError {
    input: Vec<char>,
    failure: Failure,
}

impl ParseError {
    /// The text that was read.
    pub closed spec fn spec_input(&self) -> Seq<char> {
        self.input@
    }

    /// Why reading failed.
    pub closed spec fn spec_failure(&self) -> FailureV {
        self.failure@
    }

    /// Where reading failed, counted in characters.
    pub fn position(&self) -> (r: usize)
        ensures
            r == self.spec_failure().pos,
    {
        self.failure.pos
    }

    /// The message of this error.
    pub fn to_string(&self) -> (r: String)
        ensures
            r@ == render(self.spec_input(), self.spec_failure()),
    {
        let s = self.input.as_slice();
        let f = &self.failure;
        let pos = if f.pos > s.len() {
            s.len()
        } else {
            f.pos
        };
        let msg = failure_message_exec(f);
        let mut nl = false;
        let mut i: usize = 0;
        while i < s.len()
            invariant
                i <= s@.len(),
                nl == exists|j: int| 0 <= j < i && s@[j] == '\n',
            decreases s@.len() - i,
        {
            if s[i] == '\n' {
                nl = true;
            }
            i = i + 1;
        }
        let mut out = String::new();
        if nl {
            let (line, col, ls) = line_and_column_exec(s, pos);
            let num = crate::text::decimal_string(line + 1);
            let gutter = chars_of(num.as_str()).len() as u128;
            crate::text::push_str(&mut out, "parse error at line ");
            crate::text::push_str(&mut out, num.as_str());
            crate::text::push_str(&mut out, ", column ");
            let cnum = crate::text::decimal_string(col + 1);
            crate::text::push_str(&mut out, cnum.as_str());
            out.push('\n');
            crate::text::push_spaces(&mut out, gutter);
            crate::text::push_str(&mut out, " |");
            out.push('\n');
            crate::text::push_str(&mut out, num.as_str());
            crate::text::push_str(&mut out, " | ");
            let le = line_end_exec(s, ls);
            let content = string_from_range(s, ls, le);
            crate::text::push_str(&mut out, content.as_str());
            out.push('\n');
            crate::text::push_spaces(&mut out, gutter);
            crate::text::push_str(&mut out, " | ");
            crate::text::push_spaces(&mut out, col);
            out.push('^');
            out.push('\n');
            crate::text::push_str(&mut out, msg.as_str());
        } else {
            let content = string_from_range(s, 0, s.len());
            crate::text::push_str(&mut out, content.as_str());
            out.push('\n');
            let w = utf8_len_exec(s, 0, pos);
            assert(s@.subrange(0, pos as int) =~= s@.take(pos as int));
            crate::text::push_spaces(&mut out, w);
            out.push('^');
            out.push('\n');
            crate::text::push_str(&mut out, msg.as_str());
            assert(s@.subrange(0, s@.len() as int) =~= s@);
        }
        assert(out@ =~= render(self.spec_input(), self.spec_failure()));
        out
    }
}

fn line_start_exec(s: &[char], p: usize) -> (r: usize)
    requires
        p <= s@.len(),
    ensures
        r == line_start_before(s@, p as int),
        r <= p,
{
    let mut q = p;
    while q > 0 && s[q - 1] != '\n'
        invariant
            q <= p <= s@.len(),
            line_start_before(s@, p as int) == line_start_before(s@, q as int),
        decreases q,
    {
        q = q - 1;
    }
    q
}

fn newlines_exec(s: &[char], p: usize) -> (r: u128)
    requires
        p <= s@.len(),
    ensures
        r == newlines_before(s@, p as int),
        r <= p,
{
    let mut n: u128 = 0;
    let mut q: usize = 0;
    while q < p
        invariant
            q <= p <= s@.len(),
            n == newlines_before(s@, q as int),
            n <= q,
        decreases p - q,
    {
        if s[q] == '\n' {
            n = n + 1;
        }
        q = q + 1;
    }
    n
}

fn line_end_exec(s: &[char], p: usize) -> (r: usize)
    requires
        p <= s@.len(),
    ensures
        r == line_end_from(s@, p as int),
        p <= r <= s@.len(),
{
    let mut q = p;
    while q < s.len() && s[q] != '\n'
        invariant
            p <= q <= s@.len(),
            line_end_from(s@, p as int) == line_end_from(s@, q as int),
        decreases s@.len() - q,
    {
        q = q + 1;
    }
    q
}

fn line_and_column_exec(s: &[char], pos: usize) -> (r: (u128, u128, usize))
    requires
        pos <= s@.len(),
        s@.len() > 0,
    ensures
        r.0 == line_and_column(s@, pos as int).0,
        r.1 == line_and_column(s@, pos as int).1,
        r.2 == line_and_column(s@, pos as int).2,
        r.2 <= s@.len(),
        r.0 <= s@.len(),
        r.1 <= 4 * s@.len(),
{
    if pos < s.len() {
        let ls = line_start_exec(s, pos);
        let col: u128 = if (s[pos] as u32) < 0x80 {
            (pos - ls) as u128
        } else {
            utf8_len_exec(s, ls, pos)
        };
        (newlines_exec(s, ls), col, ls)
    } else {
        let ls = line_start_exec(s, s.len() - 1);
        (newlines_exec(s, ls), (s.len() - ls) as u128, ls)
    }
}

/// Reads a whole text as a matcher expression. `||` binds tighter than `&&`; both group
/// to the left.
pub fn parse(input: &str) -> (r: Result<Expression, ParseError>)
    ensures
        r is Ok <==> spec_parse(input@) is Ok,
        r matches Ok(e) ==> spec_parse(input@) == Ok::<ExprV, FailureV>(e@),
        r matches Err(p) ==> spec_parse(input@) == Err::<ExprV, FailureV>(p.spec_failure())
            && p.spec_input() == input@,
{
    let cs = chars_of(input);
    let s = cs.as_slice();
    match expression(s, 0) {
        Err(e) => Err(ParseError { input: cs, failure: e }),
        Ok((e, j)) => {
            if j == s.len() {
                Ok(e)
            } else {
                let mut f = failure(j);
                f = with_ctx(f, ErrorContext::Expected(EXPECTED_EOF));
                f = with_ctx(f, ErrorContext::Expected(EXPECTED_AND));
                f = with_ctx(f, ErrorContext::Expected(EXPECTED_OR));
                Err(ParseError { input: cs, failure: f })
            }
        },
    }
}

} // verus!
