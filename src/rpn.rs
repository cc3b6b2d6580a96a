use vstd::prelude::*;

use crate::field::{gf_add, gf_mul, GF256};
use crate::inverse::{DivisionByZero, InverseTable};

verus! {

/// What one token of input asks the calculator to do.
#[derive(Clone, Copy, Debug, PartialEq, Eq, Structural)]
pub enum Command {
    /// `+`, `^` or `-`: field addition.
    Add,
    /// `*`: field multiplication.
    Mul,
    /// `/`: division of the second popped element by the first.
    Div,
    /// `_d`: show the stack in decimal.
    Dump,
    /// `_c`: empty the stack.
    Clear,
    /// A literal element.
    Push(u8),
    /// Anything else: the session ends.
    Quit,
}

/// The value of `c` as a digit in base `radix` (10 or 16).
pub open spec fn digit_value(c: char, radix: nat) -> Option<nat> {
    if '0' <= c && c <= '9' {
        Some((c as u32 - '0' as u32) as nat)
    } else if radix == 16 && 'a' <= c && c <= 'f' {
        Some((c as u32 - 'a' as u32 + 10) as nat)
    } else if radix == 16 && 'A' <= c && c <= 'F' {
        Some((c as u32 - 'A' as u32 + 10) as nat)
    } else {
        None
    }
}

/// The number that the digits `s` spell in base `radix`, if all of them are digits.
pub open spec fn digits_value(s: Seq<char>, radix: nat) -> Option<nat>
    decreases s.len(),
{
    if s.len() == 0 {
        Some(0)
    } else {
        match (digits_value(s.drop_last(), radix), digit_value(s.last(), radix)) {
            (Some(v), Some(d)) => Some(v * radix + d),
            _ => None,
        }
    }
}

/// A byte written in base `radix`: an optional `+`, then at least one digit, at most 255.
pub open spec fn unsigned_of(s: Seq<char>, radix: nat) -> Option<u8> {
    let body = if s.len() > 0 && s[0] == '+' {
        s.skip(1)
    } else {
        s
    };
    if body.len() == 0 {
        None
    } else {
        match digits_value(body, radix) {
            Some(v) => if v <= 255 {
                Some(v as u8)
            } else {
                None
            },
            None => None,
        }
    }
}

/// `s` without all of its leading `0x` prefixes.
pub open spec fn strip_hex_prefix(s: Seq<char>) -> Seq<char>
    decreases s.len(),
{
    if s.len() >= 2 && s[0] == '0' && s[1] == 'x' {
        strip_hex_prefix(s.skip(2))
    } else {
        s
    }
}

/// A literal: decimal first, then hexadecimal after the `0x` prefixes.
pub open spec fn literal_of(s: Seq<char>) -> Option<u8> {
    match unsigned_of(s, 10) {
        Some(v) => Some(v),
        None => unsigned_of(strip_hex_prefix(s), 16),
    }
}

/// How a token is understood.
pub open spec fn command_of(t: Seq<char>) -> Command {
    if t == seq!['+'] || t == seq!['^'] || t == seq!['-'] {
        Command::Add
    } else if t == seq!['*'] {
        Command::Mul
    } else if t == seq!['/'] {
        Command::Div
    } else if literal_of(t) is Some {
        Command::Push(literal_of(t)->0)
    } else if t == seq!['_', 'd'] {
        Command::Dump
    } else if t == seq!['_', 'c'] {
        Command::Clear
    } else {
        Command::Quit
    }
}

proof fn lemma_digits_prefix(s: Seq<char>, n: nat, radix: nat)
    requires
        n <= s.len(),
        radix >= 1,
    ensures
        digits_value(s.take(n as int), radix) is None ==> digits_value(s, radix) is None,
        digits_value(s.take(n as int), radix) matches Some(v) ==> (digits_value(s, radix) is None
            || digits_value(s, radix)->0 >= v),
    decreases s.len(),
{
    if n < s.len() {
        lemma_digits_prefix(s.drop_last(), n, radix);
        assert(s.drop_last().take(n as int) =~= s.take(n as int));
        if let Some(v) = digits_value(s.drop_last(), radix) {
            assert(v * radix >= v) by (nonlinear_arith)
                requires
                    radix >= 1,
            ;
        }
    } else {
        assert(s.take(n as int) =~= s);
    }
}

fn digit(c: char, radix: u32) -> (r: Option<u32>)
    requires
        radix == 10 || radix == 16,
    ensures
        r matches Some(d) ==> digit_value(c, radix as nat) == Some(d as nat) && d < 16,
        r is None ==> digit_value(c, radix as nat) is None,
{
    if '0' <= c && c <= '9' {
        Some(c as u32 - '0' as u32)
    } else if radix == 16 && 'a' <= c && c <= 'f' {
        Some(c as u32 - 'a' as u32 + 10)
    } else if radix == 16 && 'A' <= c && c <= 'F' {
        Some(c as u32 - 'A' as u32 + 10)
    } else {
        None
    }
}

/// Reads a byte in base `radix` from `t[from..]`.
fn parse_unsigned(t: &Vec<char>, from: usize, radix: u32) -> (r: Option<u8>)
    requires
        from <= t@.len(),
        radix == 10 || radix == 16,
    ensures
        r == unsigned_of(t@.skip(from as int), radix as nat),
{
    let ghost s = t@.skip(from as int);
    let mut start = from;
    if start < t.len() && t[start] == '+' {
        start = start + 1;
    }
    let ghost body = t@.skip(start as int);
    assert(body =~= (if s.len() > 0 && s[0] == '+' { s.skip(1) } else { s }));
    if start == t.len() {
        return None;
    }
    let mut acc: u32 = 0;
    let mut i = start;
    while i < t.len()
        invariant
            start <= i <= t@.len(),
            body == t@.skip(start as int),
            s == t@.skip(from as int),
            body == (if s.len() > 0 && s[0] == '+' { s.skip(1) } else { s }),
            body.len() > 0,
            acc <= 255,
            digits_value(body.take(i - start), radix as nat) == Some(acc as nat),
            radix == 10 || radix == 16,
        decreases t@.len() - i,
    {
        let ghost pre = body.take(i - start);
        let ghost next = body.take(i + 1 - start);
        assert(next.drop_last() =~= pre);
        assert(next.last() == t@[i as int]);
        match digit(t[i], radix) {
            None => {
                proof {
                    assert(digits_value(next, radix as nat) is None);
                    lemma_digits_prefix(body, (i + 1 - start) as nat, radix as nat);
                    assert(digits_value(body, radix as nat) is None);
                }
                return None;
            },
            Some(d) => {
                let v = acc * radix + d;
                if v > 255 {
                    proof {
                        assert(digits_value(next, radix as nat) == Some(v as nat));
                        lemma_digits_prefix(body, (i + 1 - start) as nat, radix as nat);
                    }
                    return None;
                }
                acc = v;
            },
        }
        i = i + 1;
    }
    assert(body.take(i - start) =~= body);
    Some(acc as u8)
}

/// Where the text after the `0x` prefixes of `t` starts.
fn skip_hex_prefix(t: &Vec<char>) -> (pos: usize)
    ensures
        pos <= t@.len(),
        t@.skip(pos as int) == strip_hex_prefix(t@),
{
    let mut pos: usize = 0;
    assert(t@.skip(0) =~= t@);
    while t.len() - pos >= 2 && t[pos] == '0' && t[pos + 1] == 'x'
        invariant
            pos <= t@.len(),
            strip_hex_prefix(t@.skip(pos as int)) == strip_hex_prefix(t@),
        decreases t@.len() - pos,
    {
        assert(t@.skip(pos as int).skip(2) =~= t@.skip(pos + 2));
        pos = pos + 2;
    }
    pos
}

/// The literal that `t` writes, if it is one.
pub fn parse_literal(t: &Vec<char>) -> (r: Option<u8>)
    ensures
        r == literal_of(t@),
{
    assert(t@.skip(0) =~= t@);
    match parse_unsigned(t, 0, 10) {
        Some(v) => Some(v),
        None => {
            let pos = skip_hex_prefix(t);
            parse_unsigned(t, pos, 16)
        },
    }
}

fn is_one(t: &Vec<char>, c: char) -> (r: bool)
    ensures
        r == (t@ == seq![c]),
{
    let r = t.len() == 1 && t[0] == c;
    proof {
        if t@.len() == 1 {
            assert(r ==> t@ =~= seq![c]);
        }
    }
    r
}

fn is_two(t: &Vec<char>, c0: char, c1: char) -> (r: bool)
    ensures
        r == (t@ == seq![c0, c1]),
{
    let r = t.len() == 2 && t[0] == c0 && t[1] == c1;
    proof {
        if t@.len() == 2 {
            assert(r ==> t@ =~= seq![c0, c1]);
        }
    }
    r
}

/// Classifies a token.
pub fn parse_command(t: &Vec<char>) -> (r: Command)
    ensures
        r == command_of(t@),
{
    if is_one(t, '+') || is_one(t, '^') || is_one(t, '-') {
        Command::Add
    } else if is_one(t, '*') {
        Command::Mul
    } else if is_one(t, '/') {
        Command::Div
    } else {
        match parse_literal(t) {
            Some(v) => Command::Push(v),
            None => if is_two(t, '_', 'd') {
                Command::Dump
            } else if is_two(t, '_', 'c') {
                Command::Clear
            } else {
                Command::Quit
            },
        }
    }
}

/// The stack's elements as bytes, bottom first.
pub open spec fn stack_view(s: Seq<GF256>) -> Seq<u8> {
    s.map_values(|e: GF256| e@)
}

/// The top of `s`, or `d` when `s` is empty.
pub open spec fn top_or(s: Seq<u8>, d: u8) -> u8 {
    if s.len() > 0 {
        s.last()
    } else {
        d
    }
}

/// `s` without its top, if it has one.
pub open spec fn below(s: Seq<u8>) -> Seq<u8> {
    if s.len() > 0 {
        s.drop_last()
    } else {
        s
    }
}

/// The stack after a command, or the failure it meets. `Dump` and `Quit` leave it as it is.
pub open spec fn execute_spec(s: Seq<u8>, t: InverseTable, c: Command) -> Result<Seq<u8>, DivisionByZero> {
    match c {
        Command::Add => Ok(below(below(s)).push(gf_add(top_or(s, 0), top_or(below(s), 0)))),
        Command::Mul => Ok(below(below(s)).push(gf_mul(top_or(s, 1), top_or(below(s), 1)))),
        Command::Div => if top_or(s, 0) == 0 {
            Err(DivisionByZero)
        } else {
            Ok(below(below(s)).push(gf_mul(top_or(below(s), 0), t.inverse(top_or(s, 0)))))
        },
        Command::Clear => Ok(Seq::empty()),
        Command::Push(v) => Ok(s.push(v)),
        Command::Dump | Command::Quit => Ok(s),
    }
}

fn pop_or(stack: &mut Vec<GF256>, d: u8) -> (r: GF256)
    ensures
        r@ == top_or(stack_view(old(stack)@), d),
        stack_view(final(stack)@) == below(stack_view(old(stack)@)),
{
    match stack.pop() {
        Some(v) => {
            assert(stack_view(final(stack)@) =~= stack_view(old(stack)@).drop_last());
            v
        },
        None => GF256::new(d),
    }
}

fn push_elem(stack: &mut Vec<GF256>, v: GF256)
    ensures
        stack_view(final(stack)@) == stack_view(old(stack)@).push(v@),
{
    stack.push(v);
    assert(stack_view(final(stack)@) =~= stack_view(old(stack)@).push(v@));
}

/// Applies one command to the stack. A division by zero leaves the stack as it was.
pub fn execute(stack: &mut Vec<GF256>, table: &InverseTable, cmd: Command) -> (r: Result<(), DivisionByZero>)
    requires
        table.wf(),
    ensures
        match execute_spec(stack_view(old(stack)@), *table, cmd) {
            Ok(s) => r is Ok && stack_view(final(stack)@) == s,
            Err(_) => r is Err && final(stack)@ == old(stack)@,
        },
{
    match cmd {
        Command::Add => {
            let a = pop_or(stack, 0);
            let b = pop_or(stack, 0);
            push_elem(stack, a.add(b));
        },
        Command::Mul => {
            let a = pop_or(stack, 1);
            let b = pop_or(stack, 1);
            push_elem(stack, a.mul(b));
        },
        Command::Div => {
            let n = stack.len();
            let divisor = if n > 0 {
                stack[n - 1]
            } else {
                GF256::new(0)
            };
            if divisor.value() == 0 {
                return Err(DivisionByZero);
            }
            let a = pop_or(stack, 0);
            let b = pop_or(stack, 0);
            match b.div(a, table) {
                Ok(q) => push_elem(stack, q),
                Err(e) => {
                    return Err(e);
                },
            }
        },
        Command::Clear => {
            stack.clear();
            assert(stack_view(stack@) =~= Seq::<u8>::empty());
        },
        Command::Push(v) => {
            push_elem(stack, GF256::new(v));
        },
        Command::Dump | Command::Quit => {},
    }
    Ok(())
}

/// Tokens finished and the token under way after the first `n` characters of `s`.
pub open spec fn split_prefix(s: Seq<char>, n: nat) -> (Seq<Seq<char>>, Seq<char>)
    decreases n,
{
    if n == 0 || n > s.len() {
        (Seq::empty(), Seq::empty())
    } else {
        let (done, cur) = split_prefix(s, (n - 1) as nat);
        if s[n - 1] == ' ' {
            (done.push(cur), Seq::empty())
        } else {
            (done, cur.push(s[n - 1]))
        }
    }
}

/// The pieces of `s` between single spaces; two spaces in a row give an empty piece.
pub open spec fn split_spaces(s: Seq<char>) -> Seq<Seq<char>> {
    let (done, cur) = split_prefix(s, s.len());
    done.push(cur)
}

/// The tokens as character sequences.
pub open spec fn tokens_view(v: Seq<Vec<char>>) -> Seq<Seq<char>> {
    v.map_values(|t: Vec<char>| t@)
}

fn chars_of(s: &str) -> (r: Vec<char>)
    ensures
        r@ == s@,
{
    let mut r: Vec<char> = Vec::new();
    for c in it: s.chars()
        invariant
            it.seq() == s@,
            r@ == it.seq().take(it.index() as int),
    {
        assert(it.seq().take(it.index() + 1) =~= r@.push(c));
        r.push(c);
    }
    assert(r@ =~= s@);
    r
}

/// Splits a line, already trimmed, at each single space.
pub fn split_tokens(line: &str) -> (r: Vec<Vec<char>>)
    ensures
        tokens_view(r@) == split_spaces(line@),
{
    let s = chars_of(line);
    let mut done: Vec<Vec<char>> = Vec::new();
    let mut cur: Vec<char> = Vec::new();
    let mut i: usize = 0;
    while i < s.len()
        invariant
            i <= s@.len(),
            s@ == line@,
            (tokens_view(done@), cur@) == split_prefix(s@, i as nat),
        decreases s@.len() - i,
    {
        if s[i] == ' ' {
            let ghost piece = cur@;
            done.push(cur);
            cur = Vec::new();
            assert(tokens_view(done@) =~= split_prefix(s@, i as nat).0.push(piece));
        } else {
            cur.push(s[i]);
        }
        i = i + 1;
    }
    done.push(cur);
    assert(tokens_view(done@) =~= split_spaces(line@));
    done
}

/// What `str::trim` leaves of `s`.
pub uninterp spec fn trim_of(s: Seq<char>) -> Seq<char>;

/// Relies on `str::trim`: the line without leading and trailing white space.
#[verifier::external_body]
fn trimmed(s: &str) -> (r: &str)
    ensures
        r@ == trim_of(s@),
{
    s.trim()
}

/// The tokens of a line of input: trimmed, then split at each single space.
pub fn tokens(line: &str) -> (r: Vec<Vec<char>>)
    ensures
        tokens_view(r@) == split_spaces(trim_of(line@)),
{
    split_tokens(trimmed(line))
}

} // verus!
