use vstd::prelude::*;
use vstd::string::*;
use crate::token::{ParseError, Token};

verus! {

// --- character classes of the expression grammar ---

pub open spec fn is_digit(c: char) -> bool {
    c == '0' || c == '1' || c == '2' || c == '3' || c == '4' || c == '5' || c == '6' || c == '7'
        || c == '8' || c == '9'
}

pub open spec fn digit_val(c: char) -> u8 {
    if c == '0' {
        0
    } else if c == '1' {
        1
    } else if c == '2' {
        2
    } else if c == '3' {
        3
    } else if c == '4' {
        4
    } else if c == '5' {
        5
    } else if c == '6' {
        6
    } else if c == '7' {
        7
    } else if c == '8' {
        8
    } else {
        9
    }
}

/// The whitespace characters of the grammar's single-line ASCII expressions.
pub open spec fn is_space(c: char) -> bool {
    c == ' ' || c == '\t' || c == '\n' || c == '\r' || c == '\u{000B}' || c == '\u{000C}'
}

/// The operator character table.
pub open spec fn spec_char_op(c: char) -> Option<Token> {
    if c == '+' {
        Some(Token::Add)
    } else if c == '-' {
        Some(Token::Sub)
    } else if c == '*' {
        Some(Token::Mul)
    } else if c == '/' {
        Some(Token::Div)
    } else if c == '%' {
        Some(Token::Mod)
    } else if c == '#' {
        Some(Token::Pow)
    } else if c == '&' {
        Some(Token::BitAnd)
    } else if c == '|' {
        Some(Token::BitOr)
    } else if c == ':' {
        Some(Token::BitAndNot)
    } else if c == '^' {
        Some(Token::BitXor)
    } else if c == '<' {
        Some(Token::BitLShift)
    } else if c == '>' {
        Some(Token::BitRShift)
    } else if c == '?' {
        Some(Token::Greater)
    } else if c == '@' {
        Some(Token::Weight)
    } else {
        None
    }
}

/// The single-character variables.
pub open spec fn is_var_char(c: char) -> bool {
    c == 'c' || c == 's' || c == 'Y' || c == 'x' || c == 'y' || c == 'N' || c == 'e' || c == 'b'
        || c == 'H' || c == 'L' || c == 'h' || c == 'v' || c == 'd' || c == 'g' || c == 't'
}

/// Operator precedence: additive and plain bitwise operators bind loosest,
/// multiplicative ones tighter, comparison and weighting tightest. Everything
/// else (parentheses included) sits below every operator.
pub open spec fn spec_prec(t: Token) -> int {
    match t {
        Token::Add | Token::Sub | Token::BitOr | Token::BitXor => 4,
        Token::Mul | Token::Div | Token::Mod | Token::BitAnd | Token::BitAndNot
            | Token::BitLShift | Token::BitRShift | Token::Pow => 5,
        Token::Greater | Token::Weight => 6,
        _ => -1,
    }
}

// --- digit runs ---

/// The index just past the run of digits that starts at `i`.
pub open spec fn digits_end(s: Seq<char>, i: int) -> int
    decreases s.len() - i,
{
    if i < 0 || i >= s.len() || !is_digit(s[i]) {
        i
    } else {
        digits_end(s, i + 1)
    }
}

pub proof fn lemma_digits_end(s: Seq<char>, i: int)
    requires
        0 <= i <= s.len(),
    ensures
        i <= digits_end(s, i) <= s.len(),
    decreases s.len() - i,
{
    if i < s.len() && is_digit(s[i]) {
        lemma_digits_end(s, i + 1);
    }
}

/// The numeric value of the digits `s[i..j)`.
pub open spec fn digits_val(s: Seq<char>, i: int, j: int) -> int
    decreases j - i,
{
    if j <= i {
        0
    } else {
        digits_val(s, i, j - 1) * 10 + digit_val(s[j - 1])
    }
}

proof fn lemma_digits_val_nonneg(s: Seq<char>, i: int, j: int)
    ensures
        digits_val(s, i, j) >= 0,
    decreases j - i,
{
    if j > i {
        lemma_digits_val_nonneg(s, i, j - 1);
    }
}

/// The value named by the digit run `s[i..j)`: the default when the run is
/// empty, an error naming the position just past the run when it exceeds 255.
pub open spec fn spec_parse_value(s: Seq<char>, i: int, j: int, default: u8) -> Result<
    u8,
    ParseError,
> {
    if j <= i {
        Ok(default)
    } else if digits_val(s, i, j) > 255 {
        Err(ParseError::InvalidValue { position: j as usize })
    } else {
        Ok(digits_val(s, i, j) as u8)
    }
}

// --- the parser's state ---

/// The shunting-yard state between two characters: the postfix output so far,
/// the operator stack, and a numeric literal still being accumulated.
pub ghost struct ParseState {
    pub out: Seq<Token>,
    pub ops: Seq<Token>,
    pub num: Option<u8>,
}

pub open spec fn parse_init() -> ParseState {
    ParseState { out: Seq::empty(), ops: Seq::empty(), num: None }
}

/// Moves a pending numeric literal to the output.
pub open spec fn flush_num(st: ParseState) -> ParseState {
    match st.num {
        Some(n) => ParseState { out: st.out.push(Token::Num(n)), ops: st.ops, num: None },
        None => st,
    }
}

/// Pops every stacked operator whose precedence is at least `p` to the
/// output; stops at the first weaker operator or parenthesis marker.
pub open spec fn pop_ge(out: Seq<Token>, ops: Seq<Token>, p: int) -> (Seq<Token>, Seq<Token>)
    decreases ops.len(),
{
    if ops.len() == 0 || spec_prec(ops.last()) < p {
        (out, ops)
    } else {
        pop_ge(out.push(ops.last()), ops.drop_last(), p)
    }
}

/// Pops stacked operators to the output until a `(` marker, which is
/// discarded; `None` when no marker is on the stack.
pub open spec fn pop_to_lparen(out: Seq<Token>, ops: Seq<Token>) -> Option<(Seq<Token>, Seq<Token>)>
    decreases ops.len(),
{
    if ops.len() == 0 {
        None
    } else if ops.last() == Token::LeftParen {
        Some((out, ops.drop_last()))
    } else {
        pop_to_lparen(out.push(ops.last()), ops.drop_last())
    }
}

/// Pops the whole operator stack to the output at the end of the input;
/// `None` when an unmatched `(` marker is still stacked.
pub open spec fn flush_end(out: Seq<Token>, ops: Seq<Token>) -> Option<Seq<Token>>
    decreases ops.len(),
{
    if ops.len() == 0 {
        Some(out)
    } else if ops.last() == Token::LeftParen {
        None
    } else {
        flush_end(out.push(ops.last()), ops.drop_last())
    }
}

/// What parsing the rest of the input, `s[i..)`, yields when started in state
/// `st`. Positions in errors are 1-based counts of consumed characters.
pub open spec fn parse_from(s: Seq<char>, i: int, st: ParseState) -> Result<Seq<Token>, ParseError>
    decreases s.len() - i, 0int, via parse_from_dec
{
    if i < 0 || i >= s.len() {
        match flush_end(flush_num(st).out, st.ops) {
            Some(out) => Ok(out),
            None => Err(ParseError::MismatchedParenthesis),
        }
    } else {
        let c = s[i];
        if is_digit(c) {
            let v = match st.num {
                Some(n) => n * 10 + digit_val(c),
                None => digit_val(c) as int,
            };
            if v > 255 {
                Err(ParseError::NumberTooLarge { position: (i + 1) as usize })
            } else {
                parse_from(s, i + 1, ParseState { num: Some(v as u8), ..st })
            }
        } else if c == 'r' {
            let st1 = flush_num(st);
            let j = digits_end(s, i + 1);
            match spec_parse_value(s, i + 1, j, 1) {
                Err(e) => Err(e),
                Ok(v) => if v == 0 {
                    Err(ParseError::ZeroRange)
                } else {
                    parse_from(s, j, ParseState { out: st1.out.push(Token::Random(v)), ..st1 })
                },
            }
        } else if c == 'R' || c == 'G' || c == 'B' {
            let st1 = flush_num(st);
            let j = digits_end(s, i + 1);
            match spec_parse_value(s, i + 1, j, 255) {
                Err(e) => Err(e),
                Ok(v) => parse_from(
                    s,
                    j,
                    ParseState { out: st1.out.push(Token::RGBColor(c, v)), ..st1 },
                ),
            }
        } else if c == 'b' {
            let st1 = flush_num(st);
            let j = digits_end(s, i + 1);
            match spec_parse_value(s, i + 1, j, 255) {
                Err(e) => Err(e),
                Ok(v) => parse_from(
                    s,
                    j,
                    ParseState { out: st1.out.push(Token::Brightness(v)), ..st1 },
                ),
            }
        } else if c == 'i' {
            // `i` pushes straight to the output without flushing a pending
            // literal, exactly as the single-character variables do
            parse_from(s, i + 1, ParseState { out: st.out.push(Token::Invert), ..st })
        } else if spec_char_op(c) is Some {
            let op = spec_char_op(c)->Some_0;
            let st1 = flush_num(st);
            let popped = pop_ge(st1.out, st1.ops, spec_prec(op));
            parse_from(s, i + 1, ParseState { out: popped.0, ops: popped.1.push(op), num: None })
        } else if c == '(' {
            let st1 = flush_num(st);
            parse_from(s, i + 1, ParseState { ops: st1.ops.push(Token::LeftParen), ..st1 })
        } else if c == ')' {
            let st1 = flush_num(st);
            match pop_to_lparen(st1.out, st1.ops) {
                None => Err(ParseError::MismatchedParenthesis),
                Some(popped) => parse_from(
                    s,
                    i + 1,
                    ParseState { out: popped.0, ops: popped.1, num: None },
                ),
            }
        } else if is_space(c) {
            parse_from(s, i + 1, flush_num(st))
        } else if is_var_char(c) {
            parse_from(s, i + 1, ParseState { out: st.out.push(Token::Char(c)), ..st })
        } else {
            Err(ParseError::InvalidCharacter { character: c, position: (i + 1) as usize })
        }
    }
}

#[via_fn]
proof fn parse_from_dec(s: Seq<char>, i: int, st: ParseState) {
    if 0 <= i < s.len() {
        lemma_digits_end(s, i + 1);
    }
}

/// What parsing a whole expression string yields.
pub open spec fn spec_parse(s: Seq<char>) -> Result<Seq<Token>, ParseError> {
    parse_from(s, 0, parse_init())
}

// --- executable classifiers ---

fn exec_is_digit(c: char) -> (b: bool)
    ensures
        b == is_digit(c),
{
    c == '0' || c == '1' || c == '2' || c == '3' || c == '4' || c == '5' || c == '6' || c == '7'
        || c == '8' || c == '9'
}

fn exec_digit_val(c: char) -> (d: u8)
    requires
        is_digit(c),
    ensures
        d == digit_val(c),
{
    if c == '0' {
        0
    } else if c == '1' {
        1
    } else if c == '2' {
        2
    } else if c == '3' {
        3
    } else if c == '4' {
        4
    } else if c == '5' {
        5
    } else if c == '6' {
        6
    } else if c == '7' {
        7
    } else if c == '8' {
        8
    } else {
        9
    }
}

fn exec_is_space(c: char) -> (b: bool)
    ensures
        b == is_space(c),
{
    c == ' ' || c == '\t' || c == '\n' || c == '\r' || c == '\u{000B}' || c == '\u{000C}'
}

pub fn char_to_token(c: char) -> (t: Option<Token>)
    ensures
        t == spec_char_op(c),
{
    match c {
        '+' => Some(Token::Add),
        '-' => Some(Token::Sub),
        '*' => Some(Token::Mul),
        '/' => Some(Token::Div),
        '%' => Some(Token::Mod),
        '#' => Some(Token::Pow),
        '&' => Some(Token::BitAnd),
        '|' => Some(Token::BitOr),
        ':' => Some(Token::BitAndNot),
        '^' => Some(Token::BitXor),
        '<' => Some(Token::BitLShift),
        '>' => Some(Token::BitRShift),
        '?' => Some(Token::Greater),
        '@' => Some(Token::Weight),
        _ => None,
    }
}

pub fn valid_tok(tok: char) -> (b: bool)
    ensures
        b == is_var_char(tok),
{
    match tok {
        'c' | 's' | 'Y' | 'x' | 'y' | 'N' | 'e' | 'b' | 'H' | 'L' | 'h' | 'v' | 'd' | 'g'
            | 't' => true,
        _ => false,
    }
}

pub fn operator_precedence(op: &Token) -> (p: (i32, i32))
    ensures
        p.0 == spec_prec(*op),
        p.1 == spec_prec(*op),
{
    match op {
        Token::Add | Token::Sub | Token::BitOr | Token::BitXor => (4, 4),
        Token::Mul | Token::Div | Token::Mod | Token::BitAnd | Token::BitAndNot
            | Token::BitLShift | Token::BitRShift | Token::Pow => (5, 5),
        Token::Greater | Token::Weight => (6, 6),
        _ => (-1, -1),
    }
}

pub fn is_higher_precedence(new_op: &Token, top_op: &Token) -> (b: bool)
    ensures
        b == (spec_prec(*new_op) > spec_prec(*top_op)),
{
    let (new_prec, _) = operator_precedence(new_op);
    let (_, top_prec) = operator_precedence(top_op);
    new_prec > top_prec
}

/// Reads the run of digits starting at `start`: returns the index just past
/// the run and its value, capped at 256 once it exceeds 255.
fn read_digits(input: &str, start: usize) -> (r: (usize, u32))
    requires
        start <= input@.len(),
    ensures
        r.0 == digits_end(input@, start as int),
        start <= r.0 <= input@.len(),
        digits_val(input@, start as int, r.0 as int) <= 255 ==> r.1 == digits_val(
            input@,
            start as int,
            r.0 as int,
        ),
        digits_val(input@, start as int, r.0 as int) > 255 ==> r.1 == 256,
{
    let len = input.unicode_len();
    let mut j = start;
    let mut acc: u32 = 0;
    proof {
        lemma_digits_val_nonneg(input@, start as int, start as int);
    }
    loop
        invariant
            start <= j <= len,
            len == input@.len(),
            digits_end(input@, start as int) == digits_end(input@, j as int),
            acc <= 256,
            digits_val(input@, start as int, j as int) <= 255 ==> acc == digits_val(
                input@,
                start as int,
                j as int,
            ),
            digits_val(input@, start as int, j as int) > 255 ==> acc == 256,
        ensures
            start <= j <= len,
            digits_end(input@, start as int) == j as int,
            acc <= 256,
            digits_val(input@, start as int, j as int) <= 255 ==> acc == digits_val(
                input@,
                start as int,
                j as int,
            ),
            digits_val(input@, start as int, j as int) > 255 ==> acc == 256,
        decreases len - j,
    {
        if j >= len {
            proof {
                assert(digits_end(input@, j as int) == j as int);
            }
            break ;
        }
        let c = input.get_char(j);
        if !exec_is_digit(c) {
            proof {
                assert(digits_end(input@, j as int) == j as int);
            }
            break ;
        }
        let ghost old_val = digits_val(input@, start as int, j as int);
        proof {
            lemma_digits_val_nonneg(input@, start as int, j as int);
            assert(digits_val(input@, start as int, j as int + 1) == old_val * 10 + digit_val(c));
            assert(digits_end(input@, j as int) == digits_end(input@, j as int + 1));
        }
        let d = exec_digit_val(c);
        acc = acc * 10 + d as u32;
        if acc > 255 {
            acc = 256;
        }
        j = j + 1;
    }
    (j, acc)
}

/// Turns a digit run into a value: the default when no digits followed, an
/// error when they name more than 255.
pub fn parse_value(any_digits: bool, value: u32, default: u8, current_position: usize) -> (r:
    Result<u8, ParseError>)
    requires
        value <= 256,
    ensures
        r == (if !any_digits {
            Ok::<u8, ParseError>(default)
        } else if value > 255 {
            Err::<u8, ParseError>(ParseError::InvalidValue { position: current_position })
        } else {
            Ok::<u8, ParseError>(value as u8)
        }),
{
    if !any_digits {
        Ok(default)
    } else if value > 255 {
        Err(ParseError::InvalidValue { position: current_position })
    } else {
        Ok(value as u8)
    }
}

/// Pops every stacked operator at least as strong as `op` to the output, then
/// stacks `op`: left-associative operator handling.
pub fn handle_operator(operator_stack: &mut Vec<Token>, output_queue: &mut Vec<Token>, op: Token)
    ensures
        ({
            let popped = pop_ge(old(output_queue)@, old(operator_stack)@, spec_prec(op));
            final(output_queue)@ == popped.0 && final(operator_stack)@ == popped.1.push(op)
        }),
{
    loop
        invariant
            pop_ge(old(output_queue)@, old(operator_stack)@, spec_prec(op)) == pop_ge(
                output_queue@,
                operator_stack@,
                spec_prec(op),
            ),
        ensures
            pop_ge(old(output_queue)@, old(operator_stack)@, spec_prec(op)) == (
            output_queue@,
            operator_stack@,
            ),
        decreases operator_stack@.len(),
    {
        if operator_stack.len() == 0 {
            break ;
        }
        let ghost out_pre = output_queue@;
        let ghost ops_pre = operator_stack@;
        let top_op = operator_stack[operator_stack.len() - 1];
        if is_higher_precedence(&op, &top_op) {
            break ;
        }
        let popped_op = operator_stack.pop().unwrap();
        output_queue.push(popped_op);
        proof {
            assert(operator_stack@ =~= ops_pre.drop_last());
            assert(pop_ge(out_pre, ops_pre, spec_prec(op)) == pop_ge(
                output_queue@,
                operator_stack@,
                spec_prec(op),
            ));
        }
    }
    operator_stack.push(op);
}

/// Parses one expression string into its postfix instruction sequence by the
/// two-stack shunting-yard algorithm; see `spec_parse` for the exact grammar.
pub fn shunting_yard(input: &str) -> (r: Result<Vec<Token>, ParseError>)
    ensures
        match r {
            Ok(v) => spec_parse(input@) == Ok::<Seq<Token>, ParseError>(v@),
            Err(e) => spec_parse(input@) == Err::<Seq<Token>, ParseError>(e),
        },
{
    let len = input.unicode_len();
    let mut output_queue: Vec<Token> = Vec::new();
    let mut operator_stack: Vec<Token> = Vec::new();
    let mut number_buffer: Option<u8> = None;
    let mut i: usize = 0;
    while i < len
        invariant
            i <= len,
            len == input@.len(),
            spec_parse(input@) == parse_from(
                input@,
                i as int,
                ParseState { out: output_queue@, ops: operator_stack@, num: number_buffer },
            ),
        decreases len - i,
    {
        let ghost st_cur = ParseState {
            out: output_queue@,
            ops: operator_stack@,
            num: number_buffer,
        };
        let c = input.get_char(i);
        if exec_is_digit(c) {
            let d = exec_digit_val(c);
            let v: u32 = match number_buffer {
                Some(n) => n as u32 * 10 + d as u32,
                None => d as u32,
            };
            if v > 255 {
                return Err(ParseError::NumberTooLarge { position: i + 1 });
            }
            number_buffer = Some(v as u8);
            i = i + 1;
        } else if c == 'r' {
            if let Some(n) = number_buffer {
                output_queue.push(Token::Num(n));
                number_buffer = None;
            }
            let (j, acc) = read_digits(input, i + 1);
            let range = match parse_value(j > i + 1, acc, 1, j) {
                Ok(v) => v,
                Err(e) => {
                    return Err(e);
                },
            };
            if range == 0 {
                return Err(ParseError::ZeroRange);
            }
            output_queue.push(Token::Random(range));
            i = j;
        } else if c == 'R' || c == 'G' || c == 'B' {
            if let Some(n) = number_buffer {
                output_queue.push(Token::Num(n));
                number_buffer = None;
            }
            let (j, acc) = read_digits(input, i + 1);
            let value = match parse_value(j > i + 1, acc, 255, j) {
                Ok(v) => v,
                Err(e) => {
                    return Err(e);
                },
            };
            output_queue.push(Token::RGBColor(c, value));
            i = j;
        } else if c == 'b' {
            if let Some(n) = number_buffer {
                output_queue.push(Token::Num(n));
                number_buffer = None;
            }
            let (j, acc) = read_digits(input, i + 1);
            let value = match parse_value(j > i + 1, acc, 255, j) {
                Ok(v) => v,
                Err(e) => {
                    return Err(e);
                },
            };
            output_queue.push(Token::Brightness(value));
            i = j;
        } else if c == 'i' {
            output_queue.push(Token::Invert);
            i = i + 1;
        } else if let Some(op) = char_to_token(c) {
            if let Some(n) = number_buffer {
                output_queue.push(Token::Num(n));
                number_buffer = None;
            }
            handle_operator(&mut operator_stack, &mut output_queue, op);
            i = i + 1;
        } else if c == '(' {
            if let Some(n) = number_buffer {
                output_queue.push(Token::Num(n));
                number_buffer = None;
            }
            operator_stack.push(Token::LeftParen);
            i = i + 1;
        } else if c == ')' {
            if let Some(n) = number_buffer {
                output_queue.push(Token::Num(n));
                number_buffer = None;
            }
            let ghost out0 = output_queue@;
            let ghost ops0 = operator_stack@;
            let mut found_paren = false;
            loop
                invariant_except_break
                    !found_paren,
                    pop_to_lparen(out0, ops0) == pop_to_lparen(output_queue@, operator_stack@),
                ensures
                    found_paren ==> pop_to_lparen(out0, ops0) == Some(
                        (output_queue@, operator_stack@),
                    ),
                    !found_paren ==> pop_to_lparen(out0, ops0) is None,
                decreases operator_stack@.len(),
            {
                if operator_stack.len() == 0 {
                    break ;
                }
                let ghost out_pre = output_queue@;
                let ghost ops_pre = operator_stack@;
                let op = operator_stack.pop().unwrap();
                proof {
                    assert(operator_stack@ =~= ops_pre.drop_last());
                }
                if let Token::LeftParen = op {
                    found_paren = true;
                    break ;
                }
                output_queue.push(op);
            }
            if !found_paren {
                return Err(ParseError::MismatchedParenthesis);
            }
            i = i + 1;
        } else if exec_is_space(c) {
            if let Some(n) = number_buffer {
                output_queue.push(Token::Num(n));
                number_buffer = None;
            }
            i = i + 1;
        } else if valid_tok(c) {
            output_queue.push(Token::Char(c));
            i = i + 1;
        } else {
            return Err(ParseError::InvalidCharacter { character: c, position: i + 1 });
        }
    }
    if let Some(n) = number_buffer {
        output_queue.push(Token::Num(n));
        number_buffer = None;
    }
    loop
        invariant
            spec_parse(input@) == (match flush_end(output_queue@, operator_stack@) {
                Some(out) => Ok::<Seq<Token>, ParseError>(out),
                None => Err::<Seq<Token>, ParseError>(ParseError::MismatchedParenthesis),
            }),
        ensures
            spec_parse(input@) == Ok::<Seq<Token>, ParseError>(output_queue@),
        decreases operator_stack@.len(),
    {
        if operator_stack.len() == 0 {
            break ;
        }
        let ghost ops_pre = operator_stack@;
        let op = operator_stack.pop().unwrap();
        proof {
            assert(operator_stack@ =~= ops_pre.drop_last());
        }
        if let Token::LeftParen = op {
            return Err(ParseError::MismatchedParenthesis);
        }
        output_queue.push(op);
    }
    Ok(output_queue)
}

} // verus!
