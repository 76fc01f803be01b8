//! The parser: a flat infix string is turned into an expression tree by
//! precedence-by-presence splitting. The text is scanned for each operator
//! character in the fixed priority order `+`, `-`, `*`, `/`, `%`; the first
//! operator type present anywhere in the string splits it at that operator's
//! last occurrence, and both halves are parsed recursively. A substring with
//! no operator is an integer literal; a malformed literal becomes `Int(0)`
//! and is counted in the returned diagnostic count, so parsing always
//! completes.

use vstd::prelude::*;
use vstd::string::StrSliceExecFns;

use crate::token::Token;

verus! {

/// A white-space character, as `char::is_whitespace` classifies them: what
/// is stripped from around a literal.
pub open spec fn is_space(c: char) -> bool {
    ||| c == ' '
    ||| c == '\t'
    ||| c == '\n'
    ||| c == '\u{b}'
    ||| c == '\u{c}'
    ||| c == '\r'
    ||| c == '\u{85}'
    ||| c == '\u{a0}'
    ||| c == '\u{1680}'
    ||| '\u{2000}' as int <= c as int <= '\u{200a}' as int
    ||| c == '\u{2028}'
    ||| c == '\u{2029}'
    ||| c == '\u{202f}'
    ||| c == '\u{205f}'
    ||| c == '\u{3000}'
}

fn is_space_exec(c: char) -> (r: bool)
    ensures
        r == is_space(c),
{
    let code = c as u32;
    c == ' ' || c == '\t' || c == '\n' || c == '\u{b}' || c == '\u{c}' || c == '\r' || c == '\u{85}'
        || c == '\u{a0}' || c == '\u{1680}' || (0x2000 <= code && code <= 0x200a) || c == '\u{2028}'
        || c == '\u{2029}' || c == '\u{202f}' || c == '\u{205f}' || c == '\u{3000}'
}

/// True when `c` occurs anywhere in `s`: the parser's textual containment
/// check that selects the split operator.
fn contains_char(s: &str, c: char) -> (r: bool)
    ensures
        r == s@.contains(c),
{
    let len = s.unicode_len();
    let mut i: usize = 0;
    while i < len
        invariant
            i <= len,
            len == s@.len(),
            forall|j: int| 0 <= j < i ==> s@[j] != c,
        decreases len - i,
    {
        if s.get_char(i) == c {
            return true;
        }
        i = i + 1;
    }
    false
}

/// Splits at the last occurrence of `delimiter`, excluding the delimiter
/// itself; when the delimiter is absent, the left half is empty and the right
/// half is the whole input.
pub fn split_at_last_occurrence<'a>(input: &'a str, delimiter: char) -> (r: (&'a str, &'a str))
    ensures
        input@.index_of_last(delimiter) matches Some(i) ==> r.0@ == input@.subrange(0, i)
            && r.1@ == input@.subrange(i + 1, input@.len() as int),
        input@.index_of_last(delimiter) is None ==> r.0@ == Seq::<char>::empty() && r.1@
            == input@,
{
    proof {
        input@.index_of_last_ensures(delimiter);
    }
    let len = input.unicode_len();
    let mut i: usize = len;
    while i > 0
        invariant
            i <= len,
            len == input@.len(),
            forall|j: int| i <= j < len ==> input@[j] != delimiter,
        decreases i,
    {
        let idx = i - 1;
        if input.get_char(idx) == delimiter {
            proof {
                input@.index_of_last_ensures(delimiter);
                assert(input@.contains(delimiter));
                let k = input@.index_of_last(delimiter)->Some_0;
                assert(k <= idx) by {
                    if k > idx {
                        assert(input@[k] != delimiter);
                    }
                };
                assert(k == idx) by {
                    if k < idx {
                        assert(input@[idx as int] != delimiter);
                    }
                };
            }
            let left = input.substring_char(0, idx);
            let right = input.substring_char(idx + 1, len);
            return (left, right);
        }
        i = idx;
    }
    proof {
        if input@.contains(delimiter) {
            let j = choose|j: int| 0 <= j < input@.len() && input@[j] == delimiter;
            assert(input@[j] != delimiter);
        }
        reveal_strlit("");
        assert(""@ =~= Seq::<char>::empty());
    }
    ("", input)
}

/// `s` with its leading whitespace dropped.
pub open spec fn trim_start(s: Seq<char>) -> Seq<char>
    decreases s.len(),
{
    if s.len() > 0 && is_space(s[0]) {
        trim_start(s.subrange(1, s.len() as int))
    } else {
        s
    }
}

/// `s` with its trailing whitespace dropped.
pub open spec fn trim_end(s: Seq<char>) -> Seq<char>
    decreases s.len(),
{
    if s.len() > 0 && is_space(s.last()) {
        trim_end(s.drop_last())
    } else {
        s
    }
}

/// `s` with surrounding whitespace dropped.
pub open spec fn trim_spaces(s: Seq<char>) -> Seq<char> {
    trim_end(trim_start(s))
}

/// A decimal digit.
pub open spec fn is_digit(c: char) -> bool {
    '0' as int <= c as int <= '9' as int
}

/// The numeric value of a decimal digit.
pub open spec fn digit_val(c: char) -> int {
    c as int - '0' as int
}

pub open spec fn all_digits(s: Seq<char>) -> bool {
    forall|i: int| 0 <= i < s.len() ==> is_digit(#[trigger] s[i])
}

/// The value of a digit string read in base ten.
pub open spec fn digits_val(s: Seq<char>) -> int
    decreases s.len(),
{
    if s.len() == 0 {
        0
    } else {
        digits_val(s.drop_last()) * 10 + digit_val(s.last())
    }
}

/// The digit part of a trimmed literal: everything after an optional leading
/// sign character.
pub open spec fn literal_digits(t: Seq<char>) -> Seq<char> {
    if t.len() > 0 && (t[0] == '+' || t[0] == '-') {
        t.subrange(1, t.len() as int)
    } else {
        t
    }
}

/// Whether a trimmed literal carries a minus sign.
pub open spec fn literal_negative(t: Seq<char>) -> bool {
    t.len() > 0 && t[0] == '-'
}

/// The signed value of a trimmed literal.
pub open spec fn literal_val(t: Seq<char>) -> int {
    if literal_negative(t) {
        -digits_val(literal_digits(t))
    } else {
        digits_val(literal_digits(t))
    }
}

/// A trimmed substring is a well-formed `i32` literal when an optional sign
/// is followed by at least one digit and nothing else, and the signed value
/// fits in `i32`.
pub open spec fn is_i32_literal(t: Seq<char>) -> bool {
    &&& literal_digits(t).len() > 0
    &&& all_digits(literal_digits(t))
    &&& i32::MIN <= literal_val(t) <= i32::MAX
}

/// The leaf rule: a well-formed literal becomes its `Int` leaf with no
/// diagnostic; anything else becomes `Int(0)` with one diagnostic counted.
pub open spec fn spec_parse_int(s: Seq<char>) -> (Token, nat) {
    let t = trim_spaces(s);
    if is_i32_literal(t) {
        (Token::Int { val: literal_val(t) as i32 }, 0nat)
    } else {
        (Token::Int { val: 0 }, 1nat)
    }
}

/// A digit string read in base ten is nonnegative.
proof fn lemma_digits_val_nonneg(s: Seq<char>)
    requires
        all_digits(s),
    ensures
        digits_val(s) >= 0,
    decreases s.len(),
{
    if s.len() > 0 {
        assert(all_digits(s.drop_last()));
        lemma_digits_val_nonneg(s.drop_last());
    }
}

/// Reads one integer literal, as `str::parse::<i32>` accepts them after
/// trimming surrounding whitespace: an optional sign, then digits, with the
/// value in `i32` range. Anything else yields `Int(0)` and one diagnostic.
pub fn parse_int(eval_string: &str) -> (r: (Token, usize))
    ensures
        r.0 == spec_parse_int(eval_string@).0,
        r.1 as nat == spec_parse_int(eval_string@).1,
{
    let ghost sv = eval_string@;
    let len = eval_string.unicode_len();
    let mut start: usize = 0;
    proof {
        assert(sv.subrange(0, len as int) =~= sv);
    }
    while start < len && is_space_exec(eval_string.get_char(start))
        invariant
            start <= len,
            len == sv.len(),
            sv == eval_string@,
            trim_start(sv) == trim_start(sv.subrange(start as int, len as int)),
        decreases len - start,
    {
        proof {
            assert(sv.subrange(start as int, len as int).subrange(
                1,
                sv.subrange(start as int, len as int).len() as int,
            ) =~= sv.subrange(start + 1, len as int));
        }
        start = start + 1;
    }
    proof {
        assert(trim_start(sv) == sv.subrange(start as int, len as int));
    }
    let mut end: usize = len;
    while end > start && is_space_exec(eval_string.get_char(end - 1))
        invariant
            start <= end <= len,
            len == sv.len(),
            sv == eval_string@,
            trim_start(sv) == sv.subrange(start as int, len as int),
            trim_end(sv.subrange(start as int, len as int)) == trim_end(
                sv.subrange(start as int, end as int),
            ),
        decreases end,
    {
        proof {
            assert(sv.subrange(start as int, end as int).drop_last() =~= sv.subrange(
                start as int,
                end - 1,
            ));
        }
        end = end - 1;
    }
    let ghost t = trim_spaces(sv);
    proof {
        assert(t == sv.subrange(start as int, end as int));
    }
    let mut p: usize = start;
    let mut neg: bool = false;
    if p < end {
        let c = eval_string.get_char(p);
        if c == '-' {
            neg = true;
            p = p + 1;
        } else if c == '+' {
            p = p + 1;
        }
    }
    proof {
        assert(literal_digits(t) =~= sv.subrange(p as int, end as int));
        assert(neg == literal_negative(t));
    }
    let ghost digits = literal_digits(t);
    if p == end {
        return (Token::Int { val: 0 }, 1);
    }
    let mut acc: u64 = 0;
    let mut k: usize = p;
    while k < end
        invariant
            p <= k <= end,
            end <= len == sv.len(),
            sv == eval_string@,
            digits == sv.subrange(p as int, end as int),
            digits == literal_digits(trim_spaces(sv)),
            neg == literal_negative(trim_spaces(sv)),
            digits.len() > 0,
            forall|j: int| p <= j < k ==> is_digit(#[trigger] sv[j]),
            acc <= 0xFFFF_FFFFu64 ==> acc as int == digits_val(sv.subrange(p as int, k as int)),
            acc > 0xFFFF_FFFFu64 ==> digits_val(sv.subrange(p as int, k as int)) > 0xFFFF_FFFF,
            acc <= 0xA_0000_0000u64,
        decreases end - k,
    {
        let c = eval_string.get_char(k);
        let code = c as u32;
        proof {
            assert(sv.subrange(p as int, k + 1).drop_last() =~= sv.subrange(p as int, k as int));
            assert(sv.subrange(p as int, k + 1).last() == sv[k as int]);
            assert(all_digits(sv.subrange(p as int, k as int)));
            lemma_digits_val_nonneg(sv.subrange(p as int, k as int));
        }
        if code < 48 || code > 57 {
            proof {
                assert(!is_digit(digits[k - p]));
            }
            return (Token::Int { val: 0 }, 1);
        }
        if acc <= 0xFFFF_FFFF {
            acc = acc * 10 + (code - 48) as u64;
        }
        k = k + 1;
    }
    proof {
        assert(digits =~= sv.subrange(p as int, k as int));
        assert(all_digits(digits));
        lemma_digits_val_nonneg(digits);
    }
    if acc > 0xFFFF_FFFF {
        return (Token::Int { val: 0 }, 1);
    }
    if neg {
        if acc <= 0x8000_0000 {
            let wide: i64 = -(acc as i64);
            (Token::Int { val: wide as i32 }, 0)
        } else {
            (Token::Int { val: 0 }, 1)
        }
    } else {
        if acc <= 0x7FFF_FFFF {
            (Token::Int { val: acc as i32 }, 0)
        } else {
            (Token::Int { val: 0 }, 1)
        }
    }
}

/// The first operator type textually present in `s`, in the fixed scan
/// priority order `+`, `-`, `*`, `/`, `%`; `None` when the substring is a
/// literal.
pub open spec fn present_op(s: Seq<char>) -> Option<char> {
    if s.contains('+') {
        Some('+')
    } else if s.contains('-') {
        Some('-')
    } else if s.contains('*') {
        Some('*')
    } else if s.contains('/') {
        Some('/')
    } else if s.contains('%') {
        Some('%')
    } else {
        None
    }
}

/// The binary node built for a split operator.
pub open spec fn binary_node(op: char, l: Token, r: Token) -> Token {
    if op == '+' {
        Token::Plus { left: Box::new(l), right: Box::new(r) }
    } else if op == '-' {
        Token::Minus { left: Box::new(l), right: Box::new(r) }
    } else if op == '*' {
        Token::Mult { left: Box::new(l), right: Box::new(r) }
    } else if op == '/' {
        Token::Div { left: Box::new(l), right: Box::new(r) }
    } else {
        Token::Mod { left: Box::new(l), right: Box::new(r) }
    }
}

/// The two halves around the last occurrence of `op`; when `op` is absent,
/// an empty left half and the whole string on the right.
pub open spec fn split_last(s: Seq<char>, op: char) -> (Seq<char>, Seq<char>) {
    match s.index_of_last(op) {
        Some(i) => (s.subrange(0, i), s.subrange(i + 1, s.len() as int)),
        None => (Seq::empty(), s),
    }
}

/// Termination rank of a split at `op`: a split at a present operator makes
/// both halves strictly shorter, while a split at an absent operator keeps
/// the whole string on the right and must sit above the plain parse of it.
pub open spec fn parse_rank(s: Seq<char>, op: char) -> int {
    if s.contains(op) {
        0
    } else {
        2
    }
}

/// The mathematical parser: the pair of the tree produced for `s` and the
/// number of malformed literals absorbed as `Int(0)` leaves along the way.
pub open spec fn spec_parse(s: Seq<char>) -> (Token, nat)
    decreases s.len(), 1int,
{
    match present_op(s) {
        Some(op) => spec_parse_binary(s, op),
        None => spec_parse_int(s),
    }
}

/// The split rule at one operator: parse both halves around the last
/// occurrence, then join them under the operator's node.
pub open spec fn spec_parse_binary(s: Seq<char>, op: char) -> (Token, nat)
    decreases s.len(), parse_rank(s, op),
    via spec_parse_binary_decreases
{
    let halves = split_last(s, op);
    (
        binary_node(op, spec_parse(halves.0).0, spec_parse(halves.1).0),
        spec_parse(halves.0).1 + spec_parse(halves.1).1,
    )
}

#[via_fn]
proof fn spec_parse_binary_decreases(s: Seq<char>, op: char) {
    s.index_of_last_ensures(op);
}

/// Parsing a string yields at most one malformed literal per character, plus
/// one for an empty string; a split at an absent operator adds one more for
/// the empty left half.
proof fn lemma_parse_count_bound(s: Seq<char>)
    ensures
        spec_parse(s).1 <= s.len() + 1,
    decreases s.len(), 1int,
{
    match present_op(s) {
        Some(op) => {
            lemma_parse_binary_count_bound(s, op);
        },
        None => {},
    }
}

proof fn lemma_parse_binary_count_bound(s: Seq<char>, op: char)
    ensures
        spec_parse_binary(s, op).1 <= s.len() + 2,
        s.contains(op) ==> spec_parse_binary(s, op).1 <= s.len() + 1,
    decreases s.len(), parse_rank(s, op),
{
    s.index_of_last_ensures(op);
    let halves = split_last(s, op);
    lemma_parse_count_bound(halves.0);
    lemma_parse_count_bound(halves.1);
}

/// Parses arbitrary text into a tree, always succeeding; the second
/// component counts the malformed literals that were absorbed as `Int(0)`
/// leaves, so callers can observe the silent-degradation mode. The length
/// bound only keeps the diagnostic count inside `usize` on impossible,
/// memory-exceeding inputs.
pub fn parse(eval_string: &str) -> (r: (Token, usize))
    requires
        eval_string@.len() + 2 <= usize::MAX,
    ensures
        r.0 == spec_parse(eval_string@).0,
        r.1 as nat == spec_parse(eval_string@).1,
    decreases eval_string@.len(), 1int,
{
    if contains_char(eval_string, '+') {
        parse_plus(eval_string)
    } else if contains_char(eval_string, '-') {
        parse_minus(eval_string)
    } else if contains_char(eval_string, '*') {
        parse_mult(eval_string)
    } else if contains_char(eval_string, '/') {
        parse_div(eval_string)
    } else if contains_char(eval_string, '%') {
        parse_mod(eval_string)
    } else {
        parse_int(eval_string)
    }
}

/// Splits at the last `+` and joins the parsed halves under a `Plus` node.
pub fn parse_plus(eval_string: &str) -> (r: (Token, usize))
    requires
        eval_string@.len() + 2 <= usize::MAX,
    ensures
        r.0 == spec_parse_binary(eval_string@, '+').0,
        r.1 as nat == spec_parse_binary(eval_string@, '+').1,
    decreases eval_string@.len(), parse_rank(eval_string@, '+'),
{
    let (l, r) = split_at_last_occurrence(eval_string, '+');
    proof {
        eval_string@.index_of_last_ensures('+');
        lemma_parse_count_bound(l@);
        lemma_parse_count_bound(r@);
    }
    let (left_tok, left_count) = parse(l);
    let (right_tok, right_count) = parse(r);
    (Token::Plus { left: Box::new(left_tok), right: Box::new(right_tok) }, left_count + right_count)
}

/// Splits at the last `-` and joins the parsed halves under a `Minus` node.
pub fn parse_minus(eval_string: &str) -> (r: (Token, usize))
    requires
        eval_string@.len() + 2 <= usize::MAX,
    ensures
        r.0 == spec_parse_binary(eval_string@, '-').0,
        r.1 as nat == spec_parse_binary(eval_string@, '-').1,
    decreases eval_string@.len(), parse_rank(eval_string@, '-'),
{
    let (l, r) = split_at_last_occurrence(eval_string, '-');
    proof {
        eval_string@.index_of_last_ensures('-');
        lemma_parse_count_bound(l@);
        lemma_parse_count_bound(r@);
    }
    let (left_tok, left_count) = parse(l);
    let (right_tok, right_count) = parse(r);
    (
        Token::Minus { left: Box::new(left_tok), right: Box::new(right_tok) },
        left_count + right_count,
    )
}

/// Splits at the last `*` and joins the parsed halves under a `Mult` node.
pub fn parse_mult(eval_string: &str) -> (r: (Token, usize))
    requires
        eval_string@.len() + 2 <= usize::MAX,
    ensures
        r.0 == spec_parse_binary(eval_string@, '*').0,
        r.1 as nat == spec_parse_binary(eval_string@, '*').1,
    decreases eval_string@.len(), parse_rank(eval_string@, '*'),
{
    let (l, r) = split_at_last_occurrence(eval_string, '*');
    proof {
        eval_string@.index_of_last_ensures('*');
        lemma_parse_count_bound(l@);
        lemma_parse_count_bound(r@);
    }
    let (left_tok, left_count) = parse(l);
    let (right_tok, right_count) = parse(r);
    (Token::Mult { left: Box::new(left_tok), right: Box::new(right_tok) }, left_count + right_count)
}

/// Splits at the last `/` and joins the parsed halves under a `Div` node.
pub fn parse_div(eval_string: &str) -> (r: (Token, usize))
    requires
        eval_string@.len() + 2 <= usize::MAX,
    ensures
        r.0 == spec_parse_binary(eval_string@, '/').0,
        r.1 as nat == spec_parse_binary(eval_string@, '/').1,
    decreases eval_string@.len(), parse_rank(eval_string@, '/'),
{
    let (l, r) = split_at_last_occurrence(eval_string, '/');
    proof {
        eval_string@.index_of_last_ensures('/');
        lemma_parse_count_bound(l@);
        lemma_parse_count_bound(r@);
    }
    let (left_tok, left_count) = parse(l);
    let (right_tok, right_count) = parse(r);
    (Token::Div { left: Box::new(left_tok), right: Box::new(right_tok) }, left_count + right_count)
}

/// Splits at the last `%` and joins the parsed halves under a `Mod` node.
pub fn parse_mod(eval_string: &str) -> (r: (Token, usize))
    requires
        eval_string@.len() + 2 <= usize::MAX,
    ensures
        r.0 == spec_parse_binary(eval_string@, '%').0,
        r.1 as nat == spec_parse_binary(eval_string@, '%').1,
    decreases eval_string@.len(), parse_rank(eval_string@, '%'),
{
    let (l, r) = split_at_last_occurrence(eval_string, '%');
    proof {
        eval_string@.index_of_last_ensures('%');
        lemma_parse_count_bound(l@);
        lemma_parse_count_bound(r@);
    }
    let (left_tok, left_count) = parse(l);
    let (right_tok, right_count) = parse(r);
    (Token::Mod { left: Box::new(left_tok), right: Box::new(right_tok) }, left_count + right_count)
}

} // verus!
