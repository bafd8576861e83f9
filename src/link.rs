//! Linker scripts (`.LNK`): one command and one comment at most per line.
//!
//! Each line is read from its start. A command is recognized by the first of
//! these forms that matches: `include "f"`, `inclib "f"`, `org n`,
//! `workspace n`, `sym = expr` or `sym EQU expr`, `regs r=expr`,
//! `name group attrs`, `name section attrs`, `section name[,group]`,
//! `name alias target`, `unit n`, `global`/`xdef`/`xref` with a list of
//! symbols, `public on|off`. A comment starts at `;` and runs to the end of
//! the line. Keywords ignore case; integers are decimal, `$` hexadecimal or
//! `%` binary.
use vstd::prelude::*;

use vstd::string::StringSliceAdditionalSpecFns;
use vstd::utf8::encode_utf8;

use crate::text::{lossy_text, text_of};

verus! {

/// A binary operator of a script expression.
#[derive(Debug, Clone, Copy, PartialEq, Eq, Structural)]
pub enum BinaryOp {
    Add,
    Sub,
    Mul,
    Div,
    Mod,
    And,
    Or,
    Xor,
    Shl,
    Shr,
    Eq,
    Ne,
    Lt,
    Le,
    Gt,
    Ge,
    LogAnd,
    LogOr,
}

/// A unary operator of a script expression.
#[derive(Debug, Clone, Copy, PartialEq, Eq, Structural)]
pub enum UnaryOp {
    /// `-`
    Neg,
    /// `~`
    Not,
    /// `!`
    LogNot,
}

/// How tightly a binary operator binds: higher binds tighter.
pub open spec fn precedence_of(op: BinaryOp) -> u8 {
    match op {
        BinaryOp::LogOr => 1,
        BinaryOp::LogAnd => 2,
        BinaryOp::Or => 3,
        BinaryOp::Xor => 4,
        BinaryOp::And => 5,
        BinaryOp::Eq | BinaryOp::Ne => 6,
        BinaryOp::Lt | BinaryOp::Le | BinaryOp::Gt | BinaryOp::Ge => 7,
        BinaryOp::Shl | BinaryOp::Shr => 8,
        BinaryOp::Add | BinaryOp::Sub => 9,
        BinaryOp::Mul | BinaryOp::Div | BinaryOp::Mod => 10,
    }
}

/// The text of a binary operator in a script.
pub open spec fn binary_op_text(op: BinaryOp) -> &'static str {
    match op {
        BinaryOp::Add => "+",
        BinaryOp::Sub => "-",
        BinaryOp::Mul => "*",
        BinaryOp::Div => "/",
        BinaryOp::Mod => "%",
        BinaryOp::And => "&",
        BinaryOp::Or => "|",
        BinaryOp::Xor => "^",
        BinaryOp::Shl => "<<",
        BinaryOp::Shr => ">>",
        BinaryOp::Eq => "==",
        BinaryOp::Ne => "!=",
        BinaryOp::Lt => "<",
        BinaryOp::Le => "<=",
        BinaryOp::Gt => ">",
        BinaryOp::Ge => ">=",
        BinaryOp::LogAnd => "&&",
        BinaryOp::LogOr => "||",
    }
}

/// The text of a unary operator in a script.
pub open spec fn unary_op_text(op: UnaryOp) -> &'static str {
    match op {
        UnaryOp::Neg => "-",
        UnaryOp::Not => "~",
        UnaryOp::LogNot => "!",
    }
}

impl BinaryOp {
    /// How tightly this operator binds, from 1 (`||`) to 10 (`*`, `/`, `%`).
    pub fn precedence(self) -> (r: u8)
        ensures
            r == precedence_of(self),
            1 <= r <= 10,
    {
        match self {
            BinaryOp::LogOr => 1,
            BinaryOp::LogAnd => 2,
            BinaryOp::Or => 3,
            BinaryOp::Xor => 4,
            BinaryOp::And => 5,
            BinaryOp::Eq | BinaryOp::Ne => 6,
            BinaryOp::Lt | BinaryOp::Le | BinaryOp::Gt | BinaryOp::Ge => 7,
            BinaryOp::Shl | BinaryOp::Shr => 8,
            BinaryOp::Add | BinaryOp::Sub => 9,
            BinaryOp::Mul | BinaryOp::Div | BinaryOp::Mod => 10,
        }
    }

    /// Every binary operator of a script groups from the left.
    pub fn is_left_associative(self) -> (r: bool)
        ensures
            r,
    {
        true
    }

    /// The operator as written in a script.
    pub fn symbol(self) -> (r: &'static str)
        ensures
            r == binary_op_text(self),
    {
        match self {
            BinaryOp::Add => "+",
            BinaryOp::Sub => "-",
            BinaryOp::Mul => "*",
            BinaryOp::Div => "/",
            BinaryOp::Mod => "%",
            BinaryOp::And => "&",
            BinaryOp::Or => "|",
            BinaryOp::Xor => "^",
            BinaryOp::Shl => "<<",
            BinaryOp::Shr => ">>",
            BinaryOp::Eq => "==",
            BinaryOp::Ne => "!=",
            BinaryOp::Lt => "<",
            BinaryOp::Le => "<=",
            BinaryOp::Gt => ">",
            BinaryOp::Ge => ">=",
            BinaryOp::LogAnd => "&&",
            BinaryOp::LogOr => "||",
        }
    }
}

impl UnaryOp {
    /// The operator as written in a script.
    pub fn symbol(self) -> (r: &'static str)
        ensures
            r == unary_op_text(self),
    {
        match self {
            UnaryOp::Neg => "-",
            UnaryOp::Not => "~",
            UnaryOp::LogNot => "!",
        }
    }
}

/// An expression of a linker script.
#[derive(Debug, PartialEq, Eq)]
pub enum Expression {
    /// An integer constant: `1234`, `$ABCD`, `%1010`.
    Constant(u64),
    /// A symbol: `BUFFER_START`, `_end`.
    Symbol(String),
    /// A binary operation: `a + b`.
    Binary { left: Box<Expression>, op: BinaryOp, right: Box<Expression> },
    /// A unary operation: `-x`, `~flags`.
    Unary { op: UnaryOp, operand: Box<Expression> },
    /// A parenthesized expression: `(a + b)`.
    Parens(Box<Expression>),
    /// A function applied to one argument: `sectstart(text)`.
    Function { name: String, arg: Box<Expression> },
}

impl Clone for Expression {
    fn clone(&self) -> (c: Self)
        decreases self,
    {
        match self {
            Expression::Constant(n) => Expression::Constant(*n),
            Expression::Symbol(s) => Expression::Symbol(s.clone()),
            Expression::Binary { left, op, right } => Expression::Binary {
                left: Box::new((**left).clone()),
                op: *op,
                right: Box::new((**right).clone()),
            },
            Expression::Unary { op, operand } => Expression::Unary {
                op: *op,
                operand: Box::new((**operand).clone()),
            },
            Expression::Parens(e) => Expression::Parens(Box::new((**e).clone())),
            Expression::Function { name, arg } => Expression::Function {
                name: name.clone(),
                arg: Box::new((**arg).clone()),
            },
        }
    }
}

/// An attribute of a group or section.
#[derive(Debug, Clone, PartialEq)]
pub enum Attribute {
    BSS,
    Origin { address: u64 },
    Obj { address: Option<u64> },
    Over { group: String },
    Word,
    File { filename: String },
    Size { maxsize: u64 },
}

/// A data size.
#[derive(Debug, Clone, Copy, PartialEq, Eq, Structural)]
pub enum Size {
    Byte,
    Word,
    Long,
}

/// A command of a linker script.
#[derive(Debug, Clone, PartialEq)]
pub enum Command {
    /// Include an object file.
    Include { filename: String },
    /// Include a library file.
    IncLib { filename: String },
    /// Set the origin address.
    Origin { address: u64 },
    /// Set the workspace address.
    Workspace { address: u64 },
    /// Assign an expression to a symbol.
    Equals { left: String, right: Expression },
    /// Assign an expression to a register.
    Regs { register: String, expression: Expression },
    /// Declare a group.
    Group { name: String, attributes: Vec<Attribute> },
    /// Declare a section.
    Section { name: String, group: Option<String>, attributes: Vec<Attribute> },
    /// Give a symbol another name.
    Alias { name: String, target: String },
    /// Set the unit number.
    Unit { unitnum: u64 },
    /// Declare global symbols.
    Global { symbols: Vec<String> },
    /// Declare exported symbols.
    XDef { symbols: Vec<String> },
    /// Declare imported symbols.
    XRef { symbols: Vec<String> },
    /// Turn public symbols on or off.
    Public { public: bool },
    /// Define constants.
    DC { size: Size, expression: Vec<Expression> },
}

/// The comment of a line, without its `;` and the spaces that follow it.
#[derive(Debug, Clone, PartialEq)]
pub struct Comment {
    pub comment: String,
}

/// Why a line could not be parsed.
#[derive(Debug, Clone, Copy, PartialEq, Eq, Structural)]
pub enum ScriptErrorKind {
    /// `$` or `%` is not followed by a digit of its radix.
    MissingDigits,
    /// An integer literal does not fit in 64 bits.
    NumericOverflow,
    /// A unary operator is not followed by an operand.
    MissingOperand,
    /// No expression stands where one is needed.
    ExpectedExpression,
    /// A symbol that is not a function name is followed by `(`.
    NotCallable,
}

/// A failed parse of a line, with the byte offset where it was noticed.
#[derive(Debug, Clone, Copy, PartialEq, Eq, Structural)]
pub struct ScriptError {
    pub kind: ScriptErrorKind,
    pub position: usize,
}

/// How a parser did not succeed: it may leave the input for another form to
/// try, or it may have found an error that ends the parse.
#[derive(Debug, Clone, Copy, PartialEq, Eq, Structural)]
pub enum Failure {
    Backtrack,
    Cut(ScriptError),
}

/// A space or a tab.
pub open spec fn is_blank(c: u8) -> bool {
    c == 0x20 || c == 0x09
}

/// A decimal digit.
pub open spec fn is_dec_digit(c: u8) -> bool {
    0x30 <= c <= 0x39
}

/// The value of the digit `c` in `radix`, if it is one.
pub open spec fn digit_value(c: u8, radix: u64) -> Option<u64> {
    let v: int = if 0x30 <= c <= 0x39 {
        c - 0x30
    } else if 0x61 <= c <= 0x66 {
        c - 0x61 + 10
    } else if 0x41 <= c <= 0x46 {
        c - 0x41 + 10
    } else {
        99
    };
    if v < radix {
        Some(v as u64)
    } else {
        None
    }
}

/// The number that the digits `d` write in `radix`.
pub open spec fn digits_value(d: Seq<u8>, radix: u64) -> int
    decreases d.len(),
{
    if d.len() == 0 {
        0
    } else {
        digits_value(d.drop_last(), radix) * radix + digit_value(d.last(), radix)->0
    }
}

/// Every byte of `d` is a digit of `radix`.
pub open spec fn all_digits(d: Seq<u8>, radix: u64) -> bool {
    forall|i: int| 0 <= i < d.len() ==> (#[trigger] digit_value(d[i], radix)) is Some
}

/// The position of the first byte from `pos` on that is not a blank.
pub open spec fn blank_end(b: Seq<u8>, pos: int) -> int
    decreases b.len() - pos,
{
    if 0 <= pos < b.len() && is_blank(b[pos]) {
        blank_end(b, pos + 1)
    } else {
        pos
    }
}

/// The position after the blanks that start at `pos`.
fn skip_blanks(b: &[u8], pos: usize) -> (r: usize)
    requires
        pos <= b@.len(),
    ensures
        r == blank_end(b@, pos as int),
        pos <= r <= b@.len(),
        forall|i: int| pos <= i < r ==> is_blank(#[trigger] b@[i]),
        r == b@.len() || !is_blank(b@[r as int]),
{
    let mut p = pos;
    while p < b.len() && (b[p] == 0x20 || b[p] == 0x09)
        invariant
            pos <= p <= b@.len(),
            blank_end(b@, p as int) == blank_end(b@, pos as int),
            forall|i: int| pos <= i < p ==> is_blank(#[trigger] b@[i]),
        decreases b@.len() - p,
    {
        p = p + 1;
    }
    p
}

fn digit_of(c: u8, radix: u64) -> (r: Option<u64>)
    requires
        radix == 2 || radix == 10 || radix == 16,
    ensures
        r == digit_value(c, radix),
{
    let v: u64 = if 0x30 <= c && c <= 0x39 {
        (c - 0x30) as u64
    } else if 0x61 <= c && c <= 0x66 {
        (c - 0x61 + 10) as u64
    } else if 0x41 <= c && c <= 0x46 {
        (c - 0x41 + 10) as u64
    } else {
        99
    };
    if v < radix {
        Some(v)
    } else {
        None
    }
}

/// The position of the first byte from `p` on that is not a digit of
/// `radix`.
pub open spec fn digits_end(b: Seq<u8>, p: int, radix: u64) -> int
    decreases b.len() - p,
{
    if 0 <= p < b.len() && digit_value(b[p], radix) is Some {
        digits_end(b, p + 1, radix)
    } else {
        p
    }
}

/// The run of `radix` digits at `p` read as a 64-bit number: it backtracks
/// when there is no digit and is a hard error when the number does not fit.
pub open spec fn digits_at(b: Seq<u8>, p: int, radix: u64) -> Result<(u64, int), Failure> {
    let e = digits_end(b, p, radix);
    if e == p {
        Err(Failure::Backtrack)
    } else if digits_value(b.subrange(p, e), radix) > u64::MAX {
        Err(Failure::Cut(ScriptError { kind: ScriptErrorKind::NumericOverflow, position: p as usize }))
    } else {
        Ok((digits_value(b.subrange(p, e), radix) as u64, e))
    }
}

/// An integer literal at `p`: decimal digits, `$` and hexadecimal digits, or
/// `%` and binary digits; `$` or `%` without a digit is a hard error.
pub open spec fn integer_at(b: Seq<u8>, p: int) -> Result<(u64, int), Failure> {
    if 0 <= p < b.len() && is_dec_digit(b[p]) {
        digits_at(b, p, 10)
    } else if 0 <= p < b.len() && (b[p] == 0x24 || b[p] == 0x25) {
        match digits_at(b, p + 1, if b[p] == 0x24 { 16 } else { 2 }) {
            Err(Failure::Backtrack) => Err(
                Failure::Cut(
                    ScriptError { kind: ScriptErrorKind::MissingDigits, position: (p + 1) as usize },
                ),
            ),
            r => r,
        }
    } else {
        Err(Failure::Backtrack)
    }
}

proof fn lemma_digits_end(b: Seq<u8>, p: int, radix: u64)
    requires
        0 <= p <= b.len(),
    ensures
        p <= digits_end(b, p, radix) <= b.len(),
        all_digits(b.subrange(p, digits_end(b, p, radix)), radix),
    decreases b.len() - p,
{
    if p < b.len() && digit_value(b[p], radix) is Some {
        lemma_digits_end(b, p + 1, radix);
        let e = digits_end(b, p, radix);
        assert forall|i: int| 0 <= i < e - p implies (#[trigger] digit_value(
            b.subrange(p, e)[i],
            radix,
        )) is Some by {
            if i > 0 {
                assert(b.subrange(p, e)[i] == b.subrange(p + 1, e)[i - 1]);
            }
        }
    }
}

/// Reads the run of `radix` digits at `pos` as an unsigned 64-bit number.
pub fn parse_digits(b: &[u8], pos: usize, radix: u64) -> (r: Result<(u64, usize), Failure>)
    requires
        pos <= b@.len(),
        radix == 2 || radix == 10 || radix == 16,
    ensures
        match r {
            Ok((v, end)) => digits_at(b@, pos as int, radix) == Ok::<(u64, int), Failure>(
                (v, end as int),
            ),
            Err(f) => digits_at(b@, pos as int, radix) == Err::<(u64, int), Failure>(f),
        },
        r matches Ok((_, end)) ==> pos < end <= b@.len(),
{
    let mut p = pos;
    let mut v: u64 = 0;
    let mut overflow = false;
    let mut stop = false;
    while p < b.len() && !stop
        invariant
            pos <= p <= b@.len(),
            radix == 2 || radix == 10 || radix == 16,
            digits_end(b@, p as int, radix) == digits_end(b@, pos as int, radix),
            overflow <==> digits_value(b@.subrange(pos as int, p as int), radix) > u64::MAX,
            !overflow ==> v == digits_value(b@.subrange(pos as int, p as int), radix),
            stop ==> p < b@.len() && digit_value(b@[p as int], radix) is None,
        decreases b@.len() - p + (if stop {
            0int
        } else {
            1int
        }),
    {
        match digit_of(b[p], radix) {
            Some(d) => {
                let ghost old_value = digits_value(b@.subrange(pos as int, p as int), radix);
                assert(b@.subrange(pos as int, p + 1).drop_last() =~= b@.subrange(
                    pos as int,
                    p as int,
                ));
                assert(digits_value(b@.subrange(pos as int, p + 1), radix) == old_value * radix + d);
                if !overflow {
                    if v > (u64::MAX - d) / radix {
                        let bound = (u64::MAX - d) / radix;
                        assert(v * radix + d > u64::MAX) by (nonlinear_arith)
                            requires
                                v > bound,
                                bound == (u64::MAX - d) / radix as int,
                                radix > 0,
                                d <= u64::MAX,
                        ;
                        overflow = true;
                    } else {
                        let bound = (u64::MAX - d) / radix;
                        assert(v * radix + d <= u64::MAX) by (nonlinear_arith)
                            requires
                                v <= bound,
                                bound == (u64::MAX - d) / radix as int,
                                radix > 0,
                                d <= u64::MAX,
                        ;
                        v = v * radix + d;
                    }
                } else {
                    assert(old_value * radix + d > u64::MAX) by (nonlinear_arith)
                        requires
                            old_value > u64::MAX,
                            radix >= 2,
                            d >= 0,
                    ;
                }
                p = p + 1;
            },
            None => {
                stop = true;
            },
        }
    }
    assert(digits_end(b@, p as int, radix) == p);
    if p == pos {
        return Err(Failure::Backtrack);
    }
    if overflow {
        return Err(Failure::Cut(ScriptError { kind: ScriptErrorKind::NumericOverflow, position: pos }));
    }
    Ok((v, p))
}

/// Reads an integer constant at `pos`: decimal digits, `$` and hexadecimal
/// digits, or `%` and binary digits.
pub fn parse_integer_constant(b: &[u8], pos: usize) -> (r: Result<(u64, usize), Failure>)
    requires
        pos <= b@.len(),
    ensures
        match r {
            Ok((v, end)) => integer_at(b@, pos as int) == Ok::<(u64, int), Failure>((v, end as int)),
            Err(f) => integer_at(b@, pos as int) == Err::<(u64, int), Failure>(f),
        },
        r matches Ok((_, end)) ==> pos < end <= b@.len(),
{
    if pos < b.len() && 0x30 <= b[pos] && b[pos] <= 0x39 {
        parse_digits(b, pos, 10)
    } else if pos < b.len() && (b[pos] == 0x24 || b[pos] == 0x25) {
        let radix: u64 = if b[pos] == 0x24 {
            16
        } else {
            2
        };
        match parse_digits(b, pos + 1, radix) {
            Ok((v, end)) => Ok((v, end)),
            Err(Failure::Backtrack) => Err(
                Failure::Cut(ScriptError { kind: ScriptErrorKind::MissingDigits, position: pos + 1 }),
            ),
            Err(e) => Err(e),
        }
    } else {
        Err(Failure::Backtrack)
    }
}

/// The bytes `b[start..end]` as text.
fn text_at(b: &[u8], start: usize, end: usize) -> (r: String)
    requires
        start <= end <= b@.len(),
    ensures
        r@ == lossy_text(b@.subrange(start as int, end as int)),
{
    let mut v: Vec<u8> = Vec::new();
    let mut i = start;
    while i < end
        invariant
            start <= i <= end,
            end <= b@.len(),
            v@ =~= b@.subrange(start as int, i as int),
        decreases end - i,
    {
        v.push(b[i]);
        i = i + 1;
        assert(v@ =~= b@.subrange(start as int, i as int));
    }
    text_of(&v)
}

/// A letter or `_`, which may begin a symbol.
pub open spec fn is_symbol_start(c: u8) -> bool {
    (0x41 <= c <= 0x5A) || (0x61 <= c <= 0x7A) || c == 0x5F
}

/// A byte that may continue a symbol: a letter, a digit, `?`, `_` or `.`.
pub open spec fn is_symbol_char(c: u8) -> bool {
    is_symbol_start(c) || is_dec_digit(c) || c == 0x3F || c == 0x2E
}

/// The position of the first byte from `p` on that cannot continue a symbol.
pub open spec fn symbol_end(b: Seq<u8>, p: int) -> int
    decreases b.len() - p,
{
    if 0 <= p < b.len() && is_symbol_char(b[p]) {
        symbol_end(b, p + 1)
    } else {
        p
    }
}

/// The symbol at `p`, as text, and where it ends.
pub open spec fn symbol_at(b: Seq<u8>, p: int) -> Option<(Seq<char>, int)> {
    if 0 <= p < b.len() && is_symbol_start(b[p]) {
        let e = symbol_end(b, p + 1);
        Some((lossy_text(b.subrange(p, e)), e))
    } else {
        None
    }
}

/// Reads a symbol at `pos`: a letter or `_`, then letters, digits, `?`,
/// `_` and `.`.
pub fn parse_symbol(b: &[u8], pos: usize) -> (r: Result<(String, usize), Failure>)
    requires
        pos <= b@.len(),
    ensures
        match symbol_at(b@, pos as int) {
            Some((s, e)) => r matches Ok((x, end)) && x@ == s && end == e,
            None => r == Err::<(String, usize), Failure>(Failure::Backtrack),
        },
        r matches Ok((_, end)) ==> pos < end <= b@.len(),
{
    if pos >= b.len() {
        return Err(Failure::Backtrack);
    }
    let c = b[pos];
    if !((0x41 <= c && c <= 0x5A) || (0x61 <= c && c <= 0x7A) || c == 0x5F) {
        return Err(Failure::Backtrack);
    }
    let mut p = pos + 1;
    while p < b.len() && symbol_byte(b[p])
        invariant
            pos < p <= b@.len(),
            symbol_end(b@, p as int) == symbol_end(b@, pos + 1),
        decreases b@.len() - p,
    {
        p = p + 1;
    }
    Ok((text_at(b, pos, p), p))
}

fn symbol_byte(d: u8) -> (r: bool)
    ensures
        r == is_symbol_char(d),
{
    (0x41 <= d && d <= 0x5A) || (0x61 <= d && d <= 0x7A) || d == 0x5F || (0x30 <= d && d <= 0x39)
        || d == 0x3F || d == 0x2E
}

/// `c` with an ASCII upper-case letter made lower case.
pub open spec fn lower(c: u8) -> u8 {
    if 0x41 <= c <= 0x5A {
        (c + 32) as u8
    } else {
        c
    }
}

fn lower_byte(c: u8) -> (r: u8)
    ensures
        r == lower(c),
{
    if 0x41 <= c && c <= 0x5A {
        c + 32
    } else {
        c
    }
}

/// The bytes `k` stand at `p`, exactly or, when `caseless`, up to ASCII case.
pub open spec fn keyword_matches(b: Seq<u8>, p: int, k: Seq<u8>, caseless: bool) -> bool {
    &&& 0 <= p
    &&& p + k.len() <= b.len()
    &&& forall|i: int|
        0 <= i < k.len() ==> (b[p + i] == k[i] || (caseless && lower(b[p + i]) == lower(
            #[trigger] k[i],
        )))
}

/// Whether `kw` stands at `pos`, compared exactly or ignoring ASCII case.
fn keyword_at(b: &[u8], pos: usize, kw: &str, caseless: bool) -> (r: Option<usize>)
    requires
        pos <= b@.len(),
    ensures
        r == if keyword_matches(b@, pos as int, kw.spec_bytes(), caseless) {
            Some((pos + kw.spec_bytes().len()) as usize)
        } else {
            None::<usize>
        },
        r matches Some(end) ==> pos <= end <= b@.len() && end == pos + kw.spec_bytes().len(),
{
    let k = kw.as_bytes();
    if k.len() > b.len() - pos {
        return None;
    }
    let mut i: usize = 0;
    while i < k.len()
        invariant
            i <= k@.len(),
            k@ == kw.spec_bytes(),
            pos + k@.len() <= b@.len(),
            b@.len() == b.len(),
            k@.len() == k.len(),
            forall|j: int|
                0 <= j < i ==> (b@[pos + j] == k@[j] || (caseless && lower(b@[pos + j]) == lower(
                    #[trigger] k@[j],
                ))),
        decreases k.len() - i,
    {
        let x = b[pos + i];
        let y = k[i];
        if !(x == y || (caseless && lower_byte(x) == lower_byte(y))) {
            assert(!keyword_matches(b@, pos as int, kw.spec_bytes(), caseless)) by {
                assert(!(b@[pos + i] == k@[i as int] || (caseless && lower(b@[pos + i]) == lower(
                    k@[i as int],
                ))));
            }
            return None;
        }
        i = i + 1;
    }
    Some(pos + k.len())
}

fn byte_at(b: &[u8], pos: usize, c: u8) -> (r: bool)
    ensures
        r == (pos < b@.len() && b@[pos as int] == c),
        b@.len() <= usize::MAX,
{
    let _n = b.len();
    pos < b.len() && b[pos] == c
}

/// The byte at `p` is `c`.
pub open spec fn byte_is(b: Seq<u8>, p: int, c: u8) -> bool {
    0 <= p < b.len() && b[p] == c
}

const FUNCTION_NAMES: usize = 10;

/// The `i`-th function name that an expression may apply.
pub open spec fn function_name_text(i: int) -> &'static str {
    if i == 0 {
        "sectstart"
    } else if i == 1 {
        "sectend"
    } else if i == 2 {
        "sectbase"
    } else if i == 3 {
        "sectof"
    } else if i == 4 {
        "offs"
    } else if i == 5 {
        "bank"
    } else if i == 6 {
        "groupstart"
    } else if i == 7 {
        "groupof"
    } else if i == 8 {
        "grouporg"
    } else {
        "seg"
    }
}

fn function_name(i: usize) -> (r: &'static str)
    requires
        i < FUNCTION_NAMES,
    ensures
        r == function_name_text(i as int),
{
    if i == 0 {
        "sectstart"
    } else if i == 1 {
        "sectend"
    } else if i == 2 {
        "sectbase"
    } else if i == 3 {
        "sectof"
    } else if i == 4 {
        "offs"
    } else if i == 5 {
        "bank"
    } else if i == 6 {
        "groupstart"
    } else if i == 7 {
        "groupof"
    } else if i == 8 {
        "grouporg"
    } else {
        "seg"
    }
}

/// The first of the function names, from the `i`-th on, that stands at `p`,
/// as text, and where it ends.
pub open spec fn function_name_from(b: Seq<u8>, p: int, i: int) -> Option<(Seq<char>, int)>
    decreases 10 - i,
{
    if i < 0 || i >= 10 {
        None
    } else if keyword_matches(b, p, function_name_text(i).spec_bytes(), false)
        && function_name_text(i).spec_bytes().len() > 0 {
        let e = p + function_name_text(i).spec_bytes().len();
        Some((lossy_text(b.subrange(p, e)), e))
    } else {
        function_name_from(b, p, i + 1)
    }
}

/// Reads one of the function names `sectstart`, `sectend`, `sectbase`,
/// `sectof`, `offs`, `bank`, `groupstart`, `groupof`, `grouporg`, `seg`.
fn parse_function_name(b: &[u8], pos: usize) -> (r: Option<(String, usize)>)
    requires
        pos <= b@.len(),
    ensures
        match function_name_from(b@, pos as int, 0) {
            Some((s, e)) => r matches Some((x, end)) && x@ == s && end == e,
            None => r is None,
        },
        r matches Some((_, end)) ==> pos < end <= b@.len(),
{
    let mut i: usize = 0;
    while i < FUNCTION_NAMES
        invariant
            pos <= b@.len(),
            i <= FUNCTION_NAMES,
            function_name_from(b@, pos as int, i as int) == function_name_from(b@, pos as int, 0),
        decreases FUNCTION_NAMES - i,
    {
        let name = function_name(i);
        let ghost f = function_name_from(b@, pos as int, i as int);
        match keyword_at(b, pos, name, false) {
            Some(end) => {
                if end > pos {
                    assert(f == Some((lossy_text(b@.subrange(pos as int, end as int)), end as int)));
                    return Some((text_at(b, pos, end), end));
                }
            },
            None => {},
        }
        assert(f == function_name_from(b@, pos as int, i + 1));
        i = i + 1;
    }
    None
}

/// The binary operator that begins at `p` and its length in bytes; a
/// two-byte operator wins over a one-byte one.
pub open spec fn operator_at(b: Seq<u8>, p: int) -> Option<(BinaryOp, int)> {
    if p >= b.len() {
        None
    } else {
        let c = b[p];
        let n: u8 = if p + 1 < b.len() {
            b[p + 1]
        } else {
            0
        };
        if c == 0x3C && n == 0x3C {
            Some((BinaryOp::Shl, 2))
        } else if c == 0x3E && n == 0x3E {
            Some((BinaryOp::Shr, 2))
        } else if c == 0x3D && n == 0x3D {
            Some((BinaryOp::Eq, 2))
        } else if c == 0x21 && n == 0x3D {
            Some((BinaryOp::Ne, 2))
        } else if c == 0x3C && n == 0x3D {
            Some((BinaryOp::Le, 2))
        } else if c == 0x3E && n == 0x3D {
            Some((BinaryOp::Ge, 2))
        } else if c == 0x26 && n == 0x26 {
            Some((BinaryOp::LogAnd, 2))
        } else if c == 0x7C && n == 0x7C {
            Some((BinaryOp::LogOr, 2))
        } else if c == 0x2B {
            Some((BinaryOp::Add, 1))
        } else if c == 0x2D {
            Some((BinaryOp::Sub, 1))
        } else if c == 0x2A {
            Some((BinaryOp::Mul, 1))
        } else if c == 0x2F {
            Some((BinaryOp::Div, 1))
        } else if c == 0x25 {
            Some((BinaryOp::Mod, 1))
        } else if c == 0x26 {
            Some((BinaryOp::And, 1))
        } else if c == 0x7C {
            Some((BinaryOp::Or, 1))
        } else if c == 0x5E {
            Some((BinaryOp::Xor, 1))
        } else if c == 0x3C {
            Some((BinaryOp::Lt, 1))
        } else if c == 0x3E {
            Some((BinaryOp::Gt, 1))
        } else {
            None
        }
    }
}

/// Reads a binary operator after optional blanks; two-byte operators are
/// tried before one-byte ones.
fn parse_binary_op(b: &[u8], pos: usize) -> (r: Option<(BinaryOp, usize)>)
    requires
        pos <= b@.len(),
    ensures
        r matches Some((_, end)) ==> pos < end <= b@.len(),
        match operator_at(b@, blank_end(b@, pos as int)) {
            Some((op, n)) => r == Some((op, (blank_end(b@, pos as int) + n) as usize)),
            None => r is None,
        },
{
    let p = skip_blanks(b, pos);
    assert(pos <= p <= b@.len());
    if p >= b.len() {
        return None;
    }
    let c = b[p];
    let n: u8 = if p + 1 < b.len() {
        b[p + 1]
    } else {
        0
    };
    if c == 0x3C && n == 0x3C {
        Some((BinaryOp::Shl, p + 2))
    } else if c == 0x3E && n == 0x3E {
        Some((BinaryOp::Shr, p + 2))
    } else if c == 0x3D && n == 0x3D {
        Some((BinaryOp::Eq, p + 2))
    } else if c == 0x21 && n == 0x3D {
        Some((BinaryOp::Ne, p + 2))
    } else if c == 0x3C && n == 0x3D {
        Some((BinaryOp::Le, p + 2))
    } else if c == 0x3E && n == 0x3D {
        Some((BinaryOp::Ge, p + 2))
    } else if c == 0x26 && n == 0x26 {
        Some((BinaryOp::LogAnd, p + 2))
    } else if c == 0x7C && n == 0x7C {
        Some((BinaryOp::LogOr, p + 2))
    } else if c == 0x2B {
        Some((BinaryOp::Add, p + 1))
    } else if c == 0x2D {
        Some((BinaryOp::Sub, p + 1))
    } else if c == 0x2A {
        Some((BinaryOp::Mul, p + 1))
    } else if c == 0x2F {
        Some((BinaryOp::Div, p + 1))
    } else if c == 0x25 {
        Some((BinaryOp::Mod, p + 1))
    } else if c == 0x26 {
        Some((BinaryOp::And, p + 1))
    } else if c == 0x7C {
        Some((BinaryOp::Or, p + 1))
    } else if c == 0x5E {
        Some((BinaryOp::Xor, p + 1))
    } else if c == 0x3C {
        Some((BinaryOp::Lt, p + 1))
    } else if c == 0x3E {
        Some((BinaryOp::Gt, p + 1))
    } else {
        None
    }
}

/// The tree of a script expression, with texts as character sequences.
pub enum ExprModel {
    Constant(u64),
    Symbol(Seq<char>),
    Binary(Box<ExprModel>, BinaryOp, Box<ExprModel>),
    Unary(UnaryOp, Box<ExprModel>),
    Parens(Box<ExprModel>),
    Function(Seq<char>, Box<ExprModel>),
}

impl Expression {
    /// The tree of this expression, its texts taken as character sequences.
    pub open spec fn model(self) -> ExprModel
        decreases self,
    {
        match self {
            Expression::Constant(n) => ExprModel::Constant(n),
            Expression::Symbol(s) => ExprModel::Symbol(s@),
            Expression::Binary { left, op, right } => ExprModel::Binary(
                Box::new(left.model()),
                op,
                Box::new(right.model()),
            ),
            Expression::Unary { op, operand } => ExprModel::Unary(op, Box::new(operand.model())),
            Expression::Parens(e) => ExprModel::Parens(Box::new(e.model())),
            Expression::Function { name, arg } => ExprModel::Function(name@, Box::new(arg.model())),
        }
    }
}

/// What a parser result says, with the tree replaced by its model.
pub open spec fn model_result(r: Result<(Expression, usize), Failure>) -> Result<
    (ExprModel, int),
    Failure,
> {
    match r {
        Ok((e, end)) => Ok((e.model(), end as int)),
        Err(f) => Err(f),
    }
}

/// A primary expression at `p0`, after blanks: a function name applied to a
/// parenthesized expression, a parenthesized expression, an integer, or a
/// symbol. A symbol followed by `(` is a hard error: only the function names
/// may be applied.
pub open spec fn primary_at(b: Seq<u8>, p0: int) -> Result<(ExprModel, int), Failure>
    decreases b.len() - p0, 1nat,
{
    let p = blank_end(b, p0);
    let via_function = match function_name_from(b, p, 0) {
        Some((name, q)) => if byte_is(b, q, 0x28) && p0 < q + 1 <= b.len() {
            match expression_at(b, q + 1) {
                Ok((arg, e)) => if byte_is(b, e, 0x29) {
                    Some(Ok((ExprModel::Function(name, Box::new(arg)), e + 1)))
                } else {
                    None
                },
                Err(Failure::Backtrack) => None,
                Err(f) => Some(Err(f)),
            }
        } else {
            None
        },
        None => None,
    };
    let via_parens = if byte_is(b, p, 0x28) && p0 < p + 1 <= b.len() {
        match expression_at(b, p + 1) {
            Ok((inner, e)) => if byte_is(b, e, 0x29) {
                Some(Ok((ExprModel::Parens(Box::new(inner)), e + 1)))
            } else {
                None
            },
            Err(Failure::Backtrack) => None,
            Err(f) => Some(Err(f)),
        }
    } else {
        None
    };
    if via_function is Some {
        via_function->0
    } else if via_parens is Some {
        via_parens->0
    } else {
        match integer_at(b, p) {
            Ok((v, e)) => Ok((ExprModel::Constant(v), e)),
            Err(Failure::Backtrack) => match symbol_at(b, p) {
                Some((s, e)) => if byte_is(b, e, 0x28) {
                    Err(
                        Failure::Cut(
                            ScriptError { kind: ScriptErrorKind::NotCallable, position: e as usize },
                        ),
                    )
                } else {
                    Ok((ExprModel::Symbol(s), e))
                },
                None => Err(Failure::Backtrack),
            },
            Err(f) => Err(f),
        }
    }
}

/// The unary operator written `c`, if any.
pub open spec fn unary_op_of(c: u8) -> Option<UnaryOp> {
    if c == 0x2D {
        Some(UnaryOp::Neg)
    } else if c == 0x7E {
        Some(UnaryOp::Not)
    } else if c == 0x21 {
        Some(UnaryOp::LogNot)
    } else {
        None
    }
}

/// A unary expression at `p0`, after blanks: `-`, `~` or `!` before a unary
/// expression (so unary operators chain to the right), or a primary
/// expression. An operator without an operand is a hard error.
pub open spec fn unary_at(b: Seq<u8>, p0: int) -> Result<(ExprModel, int), Failure>
    decreases b.len() - p0, 2nat,
{
    let p = blank_end(b, p0);
    if 0 <= p < b.len() && unary_op_of(b[p]) is Some && p0 < p + 1 <= b.len() {
        match unary_at(b, p + 1) {
            Ok((x, e)) => Ok((ExprModel::Unary(unary_op_of(b[p])->0, Box::new(x)), e)),
            Err(Failure::Backtrack) => Err(
                Failure::Cut(
                    ScriptError { kind: ScriptErrorKind::MissingOperand, position: (p + 1) as usize },
                ),
            ),
            Err(f) => Err(f),
        }
    } else {
        primary_at(b, p0)
    }
}

/// Extends `lhs`, which ends at `p`, with every following binary operator of
/// precedence `min` or more: each operator takes a unary operand, which
/// first absorbs the operators that bind tighter; operators of one level
/// group from the left.
pub open spec fn rhs_at(b: Seq<u8>, p: int, min: u8, lhs: ExprModel) -> Result<
    (ExprModel, int),
    Failure,
>
    decreases b.len() - p, 0nat,
{
    let s = blank_end(b, p);
    match operator_at(b, s) {
        None => Ok((lhs, p)),
        Some((op, n)) => if precedence_of(op) < min {
            Ok((lhs, p))
        } else if p < s + n <= b.len() {
            match unary_at(b, s + n) {
                Err(f) => Err(f),
                Ok((r0, q1)) => if s + n < q1 <= b.len() {
                    match climb_at(b, q1, precedence_of(op), r0) {
                        Err(f) => Err(f),
                        Ok((r, p2)) => if p < p2 <= b.len() {
                            rhs_at(b, p2, min, ExprModel::Binary(Box::new(lhs), op, Box::new(r)))
                        } else {
                            Err(Failure::Backtrack)
                        },
                    }
                } else {
                    Err(Failure::Backtrack)
                },
            }
        } else {
            Err(Failure::Backtrack)
        },
    }
}

/// Lets the right operand `rhs`, which ends at `p`, absorb the following
/// operators that bind tighter than `prec`.
pub open spec fn climb_at(b: Seq<u8>, p: int, prec: u8, rhs: ExprModel) -> Result<
    (ExprModel, int),
    Failure,
>
    decreases b.len() - p, 1nat,
{
    match operator_at(b, blank_end(b, p)) {
        None => Ok((rhs, p)),
        Some((next, _)) => if precedence_of(next) > prec {
            match rhs_at(b, p, precedence_of(next), rhs) {
                Err(f) => Err(f),
                Ok((r2, e2)) => if e2 == p {
                    Ok((r2, p))
                } else if p < e2 <= b.len() {
                    climb_at(b, e2, prec, r2)
                } else {
                    Err(Failure::Backtrack)
                },
            }
        } else {
            Ok((rhs, p))
        },
    }
}

/// An expression at `p`: a unary expression extended by the binary
/// operators that follow it.
pub open spec fn expression_at(b: Seq<u8>, p: int) -> Result<(ExprModel, int), Failure>
    decreases b.len() - p, 3nat,
{
    match unary_at(b, p) {
        Err(f) => Err(f),
        Ok((lhs, q)) => if p < q <= b.len() {
            rhs_at(b, q, 0, lhs)
        } else {
            Err(Failure::Backtrack)
        },
    }
}

/// Reads a primary expression after optional blanks: a function applied to
/// a parenthesized argument, a parenthesized expression, an integer or a
/// symbol.
fn parse_primary(b: &[u8], pos: usize) -> (r: Result<(Expression, usize), Failure>)
    requires
        pos <= b@.len(),
    ensures
        model_result(r) == primary_at(b@, pos as int),
        r matches Ok((_, end)) ==> pos < end <= b@.len(),
    decreases b@.len() - pos, 1nat,
{
    let _n = b.len();
    let p = skip_blanks(b, pos);
    if let Some((name, q)) = parse_function_name(b, p) {
        if byte_at(b, q, 0x28) {
            match parse_expression(b, q + 1) {
                Ok((arg, e)) => {
                    if byte_at(b, e, 0x29) {
                        return Ok((Expression::Function { name, arg: Box::new(arg) }, e + 1));
                    }
                },
                Err(Failure::Backtrack) => {},
                Err(err) => {
                    return Err(err);
                },
            }
        }
    }
    if byte_at(b, p, 0x28) {
        match parse_expression(b, p + 1) {
            Ok((inner, e)) => {
                if byte_at(b, e, 0x29) {
                    return Ok((Expression::Parens(Box::new(inner)), e + 1));
                }
            },
            Err(Failure::Backtrack) => {},
            Err(err) => {
                return Err(err);
            },
        }
    }
    match parse_integer_constant(b, p) {
        Ok((v, e)) => {
            return Ok((Expression::Constant(v), e));
        },
        Err(Failure::Backtrack) => {},
        Err(err) => {
            return Err(err);
        },
    }
    match parse_symbol(b, p) {
        Ok((s, e)) => {
            if byte_at(b, e, 0x28) {
                Err(Failure::Cut(ScriptError { kind: ScriptErrorKind::NotCallable, position: e }))
            } else {
                Ok((Expression::Symbol(s), e))
            }
        },
        Err(_) => Err(Failure::Backtrack),
    }
}

/// Reads a unary expression after optional blanks: `-`, `~` or `!` before a
/// unary expression, or a primary expression.
fn parse_unary(b: &[u8], pos: usize) -> (r: Result<(Expression, usize), Failure>)
    requires
        pos <= b@.len(),
    ensures
        model_result(r) == unary_at(b@, pos as int),
        r matches Ok((_, end)) ==> pos < end <= b@.len(),
    decreases b@.len() - pos, 2nat,
{
    let p = skip_blanks(b, pos);
    if p < b.len() && (b[p] == 0x2D || b[p] == 0x7E || b[p] == 0x21) {
        let op = if b[p] == 0x2D {
            UnaryOp::Neg
        } else if b[p] == 0x7E {
            UnaryOp::Not
        } else {
            UnaryOp::LogNot
        };
        return match parse_unary(b, p + 1) {
            Ok((operand, e)) => Ok((Expression::Unary { op, operand: Box::new(operand) }, e)),
            Err(Failure::Backtrack) => Err(
                Failure::Cut(ScriptError { kind: ScriptErrorKind::MissingOperand, position: p + 1 }),
            ),
            Err(err) => Err(err),
        };
    }
    parse_primary(b, pos)
}

/// Extends `lhs`, which ends at `pos`, with the binary operators of
/// precedence `min_precedence` or more that follow, by precedence climbing.
fn parse_binary_rhs(b: &[u8], pos: usize, min_precedence: u8, lhs: Expression) -> (r: Result<
    (Expression, usize),
    Failure,
>)
    requires
        pos <= b@.len(),
    ensures
        model_result(r) == rhs_at(b@, pos as int, min_precedence, lhs.model()),
        r matches Ok((_, end)) ==> pos <= end <= b@.len(),
    decreases b@.len() - pos, 0nat,
{
    let _len = b.len();
    let s = skip_blanks(b, pos);
    let found = parse_binary_op(b, pos);
    let (op, q) = match found {
        Some(x) => x,
        None => {
            return Ok((lhs, pos));
        },
    };
    let precedence = op.precedence();
    if precedence < min_precedence {
        return Ok((lhs, pos));
    }
    proof {
        let n = match operator_at(b@, s as int) {
            Some((_, k)) => k,
            None => 0,
        };
        assert(found == Some((op, q)));
        assert(operator_at(b@, s as int) is Some);
        assert(n == 1 || n == 2);
        assert(q == s + n);
        assert(pos < s + n <= b@.len());
    }
    let (rhs0, q1) = match parse_unary(b, q) {
        Ok(x) => x,
        Err(f) => {
            return Err(f);
        },
    };
    let (rhs, p2) = match climb(b, q1, precedence, rhs0) {
        Ok(x) => x,
        Err(f) => {
            return Err(f);
        },
    };
    let joined = Expression::Binary { left: Box::new(lhs), op, right: Box::new(rhs) };
    parse_binary_rhs(b, p2, min_precedence, joined)
}

/// Lets the right operand `rhs`, which ends at `pos`, absorb the following
/// operators that bind tighter than `precedence`.
fn climb(b: &[u8], pos: usize, precedence: u8, rhs: Expression) -> (r: Result<
    (Expression, usize),
    Failure,
>)
    requires
        pos <= b@.len(),
    ensures
        model_result(r) == climb_at(b@, pos as int, precedence, rhs.model()),
        r matches Ok((_, end)) ==> pos <= end <= b@.len(),
    decreases b@.len() - pos, 1nat,
{
    let next = match parse_binary_op(b, pos) {
        Some((next_op, _)) => next_op,
        None => {
            return Ok((rhs, pos));
        },
    };
    let next_precedence = next.precedence();
    if next_precedence > precedence {
        let (r2, e2) = match parse_binary_rhs(b, pos, next_precedence, rhs) {
            Ok(x) => x,
            Err(f) => {
                return Err(f);
            },
        };
        if e2 == pos {
            Ok((r2, pos))
        } else {
            climb(b, e2, precedence, r2)
        }
    } else {
        Ok((rhs, pos))
    }
}

/// Reads an expression at `pos` (blanks first are allowed); it ends before
/// the first byte that cannot continue it.
pub fn parse_expression(b: &[u8], pos: usize) -> (r: Result<(Expression, usize), Failure>)
    requires
        pos <= b@.len(),
    ensures
        model_result(r) == expression_at(b@, pos as int),
        r matches Ok((_, end)) ==> pos < end <= b@.len(),
    decreases b@.len() - pos, 3nat,
{
    let (lhs, p) = match parse_unary(b, pos) {
        Ok(x) => x,
        Err(f) => {
            return Err(f);
        },
    };
    parse_binary_rhs(b, p, 0, lhs)
}

/// The model of an attribute, its texts as character sequences.
pub enum AttributeModel {
    BSS,
    Origin(u64),
    Obj(Option<u64>),
    Over(Seq<char>),
    Word,
    File(Seq<char>),
    Size(u64),
}

/// The model of a command, its texts as character sequences.
pub enum CommandModel {
    Include(Seq<char>),
    IncLib(Seq<char>),
    Origin(u64),
    Workspace(u64),
    Equals(Seq<char>, ExprModel),
    Regs(Seq<char>, ExprModel),
    Group(Seq<char>, Seq<AttributeModel>),
    Section(Seq<char>, Option<Seq<char>>, Seq<AttributeModel>),
    Alias(Seq<char>, Seq<char>),
    Unit(u64),
    Global(Seq<Seq<char>>),
    XDef(Seq<Seq<char>>),
    XRef(Seq<Seq<char>>),
    Public(bool),
    DC(Size, Seq<ExprModel>),
}

impl Attribute {
    /// The model of this attribute.
    pub open spec fn model(self) -> AttributeModel {
        match self {
            Attribute::BSS => AttributeModel::BSS,
            Attribute::Origin { address } => AttributeModel::Origin(address),
            Attribute::Obj { address } => AttributeModel::Obj(address),
            Attribute::Over { group } => AttributeModel::Over(group@),
            Attribute::Word => AttributeModel::Word,
            Attribute::File { filename } => AttributeModel::File(filename@),
            Attribute::Size { maxsize } => AttributeModel::Size(maxsize),
        }
    }
}

/// The models of a list of attributes.
pub open spec fn attributes_model(v: Seq<Attribute>) -> Seq<AttributeModel> {
    v.map_values(|a: Attribute| a.model())
}

/// The texts of a list of symbols.
pub open spec fn symbols_model(v: Seq<String>) -> Seq<Seq<char>> {
    v.map_values(|s: String| s@)
}

impl Command {
    /// The model of this command.
    pub open spec fn model(self) -> CommandModel {
        match self {
            Command::Include { filename } => CommandModel::Include(filename@),
            Command::IncLib { filename } => CommandModel::IncLib(filename@),
            Command::Origin { address } => CommandModel::Origin(address),
            Command::Workspace { address } => CommandModel::Workspace(address),
            Command::Equals { left, right } => CommandModel::Equals(left@, right.model()),
            Command::Regs { register, expression } => CommandModel::Regs(register@, expression.model()),
            Command::Group { name, attributes } => CommandModel::Group(
                name@,
                attributes_model(attributes@),
            ),
            Command::Section { name, group, attributes } => CommandModel::Section(
                name@,
                match group {
                    Some(g) => Some(g@),
                    None => None,
                },
                attributes_model(attributes@),
            ),
            Command::Alias { name, target } => CommandModel::Alias(name@, target@),
            Command::Unit { unitnum } => CommandModel::Unit(unitnum),
            Command::Global { symbols } => CommandModel::Global(symbols_model(symbols@)),
            Command::XDef { symbols } => CommandModel::XDef(symbols_model(symbols@)),
            Command::XRef { symbols } => CommandModel::XRef(symbols_model(symbols@)),
            Command::Public { public } => CommandModel::Public(public),
            Command::DC { size, expression } => CommandModel::DC(
                size,
                expression@.map_values(|e: Expression| e.model()),
            ),
        }
    }
}

/// What a command parser result says, with the command replaced by its model.
pub open spec fn command_result(r: Result<(Command, usize), Failure>) -> Result<
    (CommandModel, int),
    Failure,
> {
    match r {
        Ok((c, end)) => Ok((c.model(), end as int)),
        Err(f) => Err(f),
    }
}

/// One or more blanks at `p`, and where they end.
pub open spec fn blanks1_at(b: Seq<u8>, p: int) -> Option<int> {
    if blank_end(b, p) > p {
        Some(blank_end(b, p))
    } else {
        None
    }
}

/// The position after one or more blanks at `pos`.
fn blanks1(b: &[u8], pos: usize) -> (r: Option<usize>)
    requires
        pos <= b@.len(),
    ensures
        r is Some <==> blanks1_at(b@, pos as int) is Some,
        r matches Some(q) ==> blanks1_at(b@, pos as int) == Some(q as int),
        r matches Some(end) ==> pos < end <= b@.len(),
{
    let p = skip_blanks(b, pos);
    if p > pos {
        Some(p)
    } else {
        None
    }
}

/// The position of the first `"` from `p` on, or the end.
pub open spec fn quote_end(b: Seq<u8>, p: int) -> int
    decreases b.len() - p,
{
    if 0 <= p < b.len() && b[p] != 0x22 {
        quote_end(b, p + 1)
    } else {
        p
    }
}

/// A file name at `p`: one or more bytes up to the next `"`.
pub open spec fn file_name_at(b: Seq<u8>, p: int) -> Option<(Seq<char>, int)> {
    let e = quote_end(b, p);
    if e == p {
        None
    } else {
        Some((lossy_text(b.subrange(p, e)), e))
    }
}

/// Reads a file name: one or more bytes up to the next `"`.
fn parse_file_name(b: &[u8], pos: usize) -> (r: Result<(String, usize), Failure>)
    requires
        pos <= b@.len(),
    ensures
        match file_name_at(b@, pos as int) {
            Some((s, e)) => r matches Ok((x, end)) && x@ == s && end == e,
            None => r == Err::<(String, usize), Failure>(Failure::Backtrack),
        },
        r matches Ok((_, end)) ==> pos < end <= b@.len(),
{
    let mut p = pos;
    while p < b.len() && b[p] != 0x22
        invariant
            pos <= p <= b@.len(),
            quote_end(b@, p as int) == quote_end(b@, pos as int),
        decreases b@.len() - p,
    {
        p = p + 1;
    }
    if p == pos {
        return Err(Failure::Backtrack);
    }
    Ok((text_at(b, pos, p), p))
}

/// A keyword `k` in any case, after blanks, then one or more blanks: where
/// they end.
pub open spec fn command_keyword_at(b: Seq<u8>, p: int, k: Seq<u8>) -> Option<int> {
    let q = blank_end(b, p);
    if keyword_matches(b, q, k, true) {
        blanks1_at(b, q + k.len())
    } else {
        None
    }
}

/// `keyword` (any case) then blanks at `pos`, after optional blanks.
fn command_keyword(b: &[u8], pos: usize, keyword: &str) -> (r: Result<usize, Failure>)
    requires
        pos <= b@.len(),
    ensures
        r is Ok <==> command_keyword_at(b@, pos as int, keyword.spec_bytes()) is Some,
        r matches Ok(e) ==> command_keyword_at(b@, pos as int, keyword.spec_bytes()) == Some(e as int),
        r is Err ==> r == Err::<usize, Failure>(Failure::Backtrack),
        r matches Ok(end) ==> pos <= end <= b@.len(),
{
    let p = skip_blanks(b, pos);
    let q = match keyword_at(b, p, keyword, true) {
        Some(q) => q,
        None => {
            return Err(Failure::Backtrack);
        },
    };
    match blanks1(b, q) {
        Some(e) => Ok(e),
        None => Err(Failure::Backtrack),
    }
}

/// `keyword "name"`: the name and where the command ends.
pub open spec fn filename_command_at(b: Seq<u8>, p: int, k: Seq<u8>) -> Option<(Seq<char>, int)> {
    match command_keyword_at(b, p, k) {
        None => None,
        Some(q) => if byte_is(b, q, 0x22) {
            match file_name_at(b, q + 1) {
                Some((s, e)) => if byte_is(b, e, 0x22) {
                    Some((s, e + 1))
                } else {
                    None
                },
                None => None,
            }
        } else {
            None
        },
    }
}

fn parse_command_generic_filename(b: &[u8], pos: usize, keyword: &str) -> (r: Result<
    (String, usize),
    Failure,
>)
    requires
        pos <= b@.len(),
    ensures
        match filename_command_at(b@, pos as int, keyword.spec_bytes()) {
            Some((s, e)) => r matches Ok((x, end)) && x@ == s && end == e,
            None => r == Err::<(String, usize), Failure>(Failure::Backtrack),
        },
        r matches Ok((_, end)) ==> pos <= end <= b@.len(),
{
    let found1 = command_keyword(b, pos, keyword);
    let p = match found1 {
        Ok(p) => p,
        Err(f) => {
            return Err(f);
        },
    };
    assert(command_keyword_at(b@, pos as int, keyword.spec_bytes()) == Some(p as int));
    if !byte_at(b, p, 0x22) {
        return Err(Failure::Backtrack);
    }
    let (name, q) = match parse_file_name(b, p + 1) {
        Ok(x) => x,
        Err(f) => {
            return Err(f);
        },
    };
    if !byte_at(b, q, 0x22) {
        return Err(Failure::Backtrack);
    }
    Ok((name, q + 1))
}

/// `keyword n`: the integer and where the command ends.
pub open spec fn integer_command_at(b: Seq<u8>, p: int, k: Seq<u8>) -> Result<(u64, int), Failure> {
    match command_keyword_at(b, p, k) {
        None => Err(Failure::Backtrack),
        Some(q) => integer_at(b, q),
    }
}

fn parse_command_integer(b: &[u8], pos: usize, keyword: &str) -> (r: Result<(u64, usize), Failure>)
    requires
        pos <= b@.len(),
    ensures
        match r {
            Ok((v, e)) => integer_command_at(b@, pos as int, keyword.spec_bytes()) == Ok::<
                (u64, int),
                Failure,
            >((v, e as int)),
            Err(f) => integer_command_at(b@, pos as int, keyword.spec_bytes()) == Err::<
                (u64, int),
                Failure,
            >(f),
        },
        r matches Ok((_, end)) ==> pos <= end <= b@.len(),
{
    let found2 = command_keyword(b, pos, keyword);
    let p = match found2 {
        Ok(p) => p,
        Err(f) => {
            return Err(f);
        },
    };
    assert(command_keyword_at(b@, pos as int, keyword.spec_bytes()) == Some(p as int));
    assert(command_keyword_at(b@, pos as int, keyword.spec_bytes()) == Some(p as int));
    parse_integer_constant(b, p)
}

/// `sym = expr` or `sym EQU expr`, with blanks after the expression.
pub open spec fn equals_at(b: Seq<u8>, p: int) -> Result<(CommandModel, int), Failure> {
    match symbol_at(b, blank_end(b, p)) {
        None => Err(Failure::Backtrack),
        Some((left, q)) => {
            let q1 = blank_end(b, q);
            let start = if byte_is(b, q1, 0x3D) {
                Some(blank_end(b, q1 + 1))
            } else {
                match blanks1_at(b, q) {
                    None => None,
                    Some(q2) => if keyword_matches(b, q2, "EQU".spec_bytes(), false) {
                        blanks1_at(b, q2 + "EQU".spec_bytes().len())
                    } else {
                        None
                    },
                }
            };
            match start {
                None => Err(Failure::Backtrack),
                Some(st) => match expression_at(b, st) {
                    Ok((right, e)) => Ok((CommandModel::Equals(left, right), blank_end(b, e))),
                    Err(f) => Err(f),
                },
            }
        },
    }
}

fn parse_command_equals(b: &[u8], pos: usize) -> (r: Result<(Command, usize), Failure>)
    requires
        pos <= b@.len(),
    ensures
        command_result(r) == equals_at(b@, pos as int),
        r matches Ok((_, end)) ==> pos <= end <= b@.len(),
{
    let p = skip_blanks(b, pos);
    let (left, q) = match parse_symbol(b, p) {
        Ok(x) => x,
        Err(f) => {
            return Err(f);
        },
    };
    assert(symbol_at(b@, (p) as int) == Some((left@, q as int)));
    let q1 = skip_blanks(b, q);
    let start = if byte_at(b, q1, 0x3D) {
        skip_blanks(b, q1 + 1)
    } else {
        let found3 = blanks1(b, q);
        let q2 = match found3 {
            Some(x) => x,
            None => {
                return Err(Failure::Backtrack);
            },
        };
        assert(blanks1_at(b@, q as int) == Some(q2 as int));
        let q3 = match keyword_at(b, q2, "EQU", false) {
            Some(x) => x,
            None => {
                return Err(Failure::Backtrack);
            },
        };
        match blanks1(b, q3) {
            Some(x) => x,
            None => {
                return Err(Failure::Backtrack);
            },
        }
    };
    let (right, e) = match parse_expression(b, start) {
        Ok(x) => x,
        Err(f) => {
            return Err(f);
        },
    };
    Ok((Command::Equals { left, right }, skip_blanks(b, e)))
}

/// `regs r=expr`.
pub open spec fn regs_at(b: Seq<u8>, p: int) -> Result<(CommandModel, int), Failure> {
    match command_keyword_at(b, p, "regs".spec_bytes()) {
        None => Err(Failure::Backtrack),
        Some(q0) => match symbol_at(b, q0) {
            None => Err(Failure::Backtrack),
            Some((register, q)) => if byte_is(b, q, 0x3D) {
                match expression_at(b, q + 1) {
                    Ok((x, e)) => Ok((CommandModel::Regs(register, x), e)),
                    Err(f) => Err(f),
                }
            } else {
                Err(Failure::Backtrack)
            },
        },
    }
}

fn parse_command_regs(b: &[u8], pos: usize) -> (r: Result<(Command, usize), Failure>)
    requires
        pos <= b@.len(),
    ensures
        command_result(r) == regs_at(b@, pos as int),
        r matches Ok((_, end)) ==> pos <= end <= b@.len(),
{
    let found4 = command_keyword(b, pos, "regs");
    let p = match found4 {
        Ok(p) => p,
        Err(f) => {
            return Err(f);
        },
    };
    assert(command_keyword_at(b@, pos as int, "regs".spec_bytes()) == Some(p as int));
    let (register, q) = match parse_symbol(b, p) {
        Ok(x) => x,
        Err(f) => {
            return Err(f);
        },
    };
    assert(symbol_at(b@, (p) as int) == Some((register@, q as int)));
    if !byte_at(b, q, 0x3D) {
        return Err(Failure::Backtrack);
    }
    let (expression, e) = match parse_expression(b, q + 1) {
        Ok(x) => x,
        Err(f) => {
            return Err(f);
        },
    };
    Ok((Command::Regs { register, expression }, e))
}

/// A keyword `k` in any case and a `(` right after it: where the `(` ends.
pub open spec fn attribute_open_at(b: Seq<u8>, p: int, k: Seq<u8>) -> Option<int> {
    if keyword_matches(b, p, k, true) && byte_is(b, p + k.len(), 0x28) {
        Some(p + k.len() + 1)
    } else {
        None
    }
}

/// `keyword` (any case) and a `(` right after it.
fn attribute_open(b: &[u8], pos: usize, keyword: &str) -> (r: Option<usize>)
    requires
        pos <= b@.len(),
    ensures
        r is Some <==> attribute_open_at(b@, pos as int, keyword.spec_bytes()) is Some,
        r matches Some(q) ==> attribute_open_at(b@, pos as int, keyword.spec_bytes()) == Some(q as int),
        r matches Some(end) ==> pos < end <= b@.len(),
{
    match keyword_at(b, pos, keyword, true) {
        Some(q) => {
            if byte_at(b, q, 0x28) {
                Some(q + 1)
            } else {
                None
            }
        },
        None => None,
    }
}

/// An attribute at `p`: `bss`, `org(n)`, `obj([n])`, `over(group)`, `word`,
/// `file("name")` or `size(n)`, tried in that order.
pub open spec fn attribute_at(b: Seq<u8>, p: int) -> Result<(AttributeModel, int), Failure> {
    if keyword_matches(b, p, "bss".spec_bytes(), true) && "bss".spec_bytes().len() > 0 {
        Ok((AttributeModel::BSS, p + "bss".spec_bytes().len()))
    } else if let Some(q) = attribute_open_at(b, p, "org".spec_bytes()) {
        match integer_at(b, q) {
            Ok((v, e)) => if byte_is(b, e, 0x29) {
                Ok((AttributeModel::Origin(v), e + 1))
            } else {
                Err(Failure::Backtrack)
            },
            Err(f) => Err(f),
        }
    } else if let Some(q) = attribute_open_at(b, p, "obj".spec_bytes()) {
        match integer_at(b, q) {
            Ok((v, e)) => if byte_is(b, e, 0x29) {
                Ok((AttributeModel::Obj(Some(v)), e + 1))
            } else {
                Err(Failure::Backtrack)
            },
            Err(Failure::Backtrack) => if byte_is(b, q, 0x29) {
                Ok((AttributeModel::Obj(None), q + 1))
            } else {
                Err(Failure::Backtrack)
            },
            Err(f) => Err(f),
        }
    } else if let Some(q) = attribute_open_at(b, p, "over".spec_bytes()) {
        match symbol_at(b, q) {
            Some((g, e)) => if byte_is(b, e, 0x29) {
                Ok((AttributeModel::Over(g), e + 1))
            } else {
                Err(Failure::Backtrack)
            },
            None => Err(Failure::Backtrack),
        }
    } else if keyword_matches(b, p, "word".spec_bytes(), true) && "word".spec_bytes().len() > 0 {
        Ok((AttributeModel::Word, p + "word".spec_bytes().len()))
    } else if let Some(q) = attribute_open_at(b, p, "file".spec_bytes()) {
        if byte_is(b, q, 0x22) {
            match file_name_at(b, q + 1) {
                Some((f, e)) => if byte_is(b, e, 0x22) && byte_is(b, e + 1, 0x29) {
                    Ok((AttributeModel::File(f), e + 2))
                } else {
                    Err(Failure::Backtrack)
                },
                None => Err(Failure::Backtrack),
            }
        } else {
            Err(Failure::Backtrack)
        }
    } else if let Some(q) = attribute_open_at(b, p, "size".spec_bytes()) {
        match integer_at(b, q) {
            Ok((v, e)) => if byte_is(b, e, 0x29) {
                Ok((AttributeModel::Size(v), e + 1))
            } else {
                Err(Failure::Backtrack)
            },
            Err(f) => Err(f),
        }
    } else {
        Err(Failure::Backtrack)
    }
}

/// What an attribute parser result says, with the attribute replaced by its
/// model.
pub open spec fn attribute_result(r: Result<(Attribute, usize), Failure>) -> Result<
    (AttributeModel, int),
    Failure,
> {
    match r {
        Ok((a, end)) => Ok((a.model(), end as int)),
        Err(f) => Err(f),
    }
}

/// Reads an attribute: `bss`, `org(n)`, `obj([n])`, `over(group)`, `word`,
/// `file("name")` or `size(n)`.
fn parse_attribute(b: &[u8], pos: usize) -> (r: Result<(Attribute, usize), Failure>)
    requires
        pos <= b@.len(),
    ensures
        attribute_result(r) == attribute_at(b@, pos as int),
        r matches Ok((_, end)) ==> pos < end <= b@.len(),
{
    if let Some(q) = keyword_at(b, pos, "bss", true) {
        if q > pos {
            return Ok((Attribute::BSS, q));
        }
    }
    let found13 = attribute_open(b, pos, "org");
    if let Some(q) = found13 {
        assert(attribute_open_at(b@, pos as int, "org".spec_bytes()) == Some(q as int));
        return match parse_integer_constant(b, q) {
            Ok((address, e)) => if byte_at(b, e, 0x29) {
                Ok((Attribute::Origin { address }, e + 1))
            } else {
                Err(Failure::Backtrack)
            },
            Err(f) => Err(f),
        };
    }
    let found14 = attribute_open(b, pos, "obj");
    if let Some(q) = found14 {
        assert(attribute_open_at(b@, pos as int, "obj".spec_bytes()) == Some(q as int));
        return match parse_integer_constant(b, q) {
            Ok((v, e)) => if byte_at(b, e, 0x29) {
                Ok((Attribute::Obj { address: Some(v) }, e + 1))
            } else {
                Err(Failure::Backtrack)
            },
            Err(Failure::Backtrack) => if byte_at(b, q, 0x29) {
                Ok((Attribute::Obj { address: None }, q + 1))
            } else {
                Err(Failure::Backtrack)
            },
            Err(f) => Err(f),
        };
    }
    let found15 = attribute_open(b, pos, "over");
    if let Some(q) = found15 {
        assert(attribute_open_at(b@, pos as int, "over".spec_bytes()) == Some(q as int));
        return match parse_symbol(b, q) {
            Ok((group, e)) => if byte_at(b, e, 0x29) {
                Ok((Attribute::Over { group }, e + 1))
            } else {
                Err(Failure::Backtrack)
            },
            Err(_) => Err(Failure::Backtrack),
        };
    }
    if let Some(q) = keyword_at(b, pos, "word", true) {
        if q > pos {
            return Ok((Attribute::Word, q));
        }
    }
    let found16 = attribute_open(b, pos, "file");
    if let Some(q) = found16 {
        assert(attribute_open_at(b@, pos as int, "file".spec_bytes()) == Some(q as int));
        if byte_at(b, q, 0x22) {
            return match parse_file_name(b, q + 1) {
                Ok((filename, e)) => if byte_at(b, e, 0x22) && byte_at(b, e + 1, 0x29) {
                    Ok((Attribute::File { filename }, e + 2))
                } else {
                    Err(Failure::Backtrack)
                },
                Err(_) => Err(Failure::Backtrack),
            };
        }
        return Err(Failure::Backtrack);
    }
    let found17 = attribute_open(b, pos, "size");
    if let Some(q) = found17 {
        assert(attribute_open_at(b@, pos as int, "size".spec_bytes()) == Some(q as int));
        return match parse_integer_constant(b, q) {
            Ok((maxsize, e)) => if byte_at(b, e, 0x29) {
                Ok((Attribute::Size { maxsize }, e + 1))
            } else {
                Err(Failure::Backtrack)
            },
            Err(f) => Err(f),
        };
    }
    Err(Failure::Backtrack)
}

/// Blanks, a comma and blanks at `p`: where they end.
pub open spec fn separator_at(b: Seq<u8>, p: int) -> Option<int> {
    let q = blank_end(b, p);
    if byte_is(b, q, 0x2C) {
        Some(blank_end(b, q + 1))
    } else {
        None
    }
}

/// The position after blanks, a comma and blanks at `pos`.
fn list_separator(b: &[u8], pos: usize) -> (r: Option<usize>)
    requires
        pos <= b@.len(),
    ensures
        r is Some <==> separator_at(b@, pos as int) is Some,
        r matches Some(q) ==> separator_at(b@, pos as int) == Some(q as int),
        r matches Some(end) ==> pos < end <= b@.len(),
{
    let p = skip_blanks(b, pos);
    if byte_at(b, p, 0x2C) {
        Some(skip_blanks(b, p + 1))
    } else {
        None
    }
}

/// `acc` followed by the attributes that follow `p`, each after a comma: a
/// separator not followed by an attribute is left unread.
pub open spec fn more_attributes_at(b: Seq<u8>, p: int, acc: Seq<AttributeModel>) -> Result<
    (Seq<AttributeModel>, int),
    Failure,
>
    decreases b.len() - p,
{
    match separator_at(b, p) {
        None => Ok((acc, p)),
        Some(q) => match attribute_at(b, q) {
            Ok((a, e)) => if p < e <= b.len() {
                more_attributes_at(b, e, acc.push(a))
            } else {
                Err(Failure::Backtrack)
            },
            Err(Failure::Backtrack) => Ok((acc, p)),
            Err(f) => Err(f),
        },
    }
}

/// Attributes separated by commas at `p`; there may be none.
pub open spec fn attribute_list_at(b: Seq<u8>, p: int) -> Result<(Seq<AttributeModel>, int), Failure> {
    match attribute_at(b, p) {
        Ok((a, e)) => more_attributes_at(b, e, seq![a]),
        Err(Failure::Backtrack) => Ok((Seq::empty(), p)),
        Err(f) => Err(f),
    }
}

/// What an attribute-list parser result says, with attributes replaced by
/// their models.
pub open spec fn attributes_result(r: Result<(Vec<Attribute>, usize), Failure>) -> Result<
    (Seq<AttributeModel>, int),
    Failure,
> {
    match r {
        Ok((v, end)) => Ok((attributes_model(v@), end as int)),
        Err(f) => Err(f),
    }
}

fn parse_more_attributes(b: &[u8], pos: usize, attrs: Vec<Attribute>) -> (r: Result<
    (Vec<Attribute>, usize),
    Failure,
>)
    requires
        pos <= b@.len(),
    ensures
        attributes_result(r) == more_attributes_at(b@, pos as int, attributes_model(attrs@)),
        r matches Ok((_, end)) ==> pos <= end <= b@.len(),
    decreases b@.len() - pos,
{
    let found5 = list_separator(b, pos);
    let q = match found5 {
        Some(q) => q,
        None => {
            return Ok((attrs, pos));
        },
    };
    assert(separator_at(b@, pos as int) == Some(q as int));
    match parse_attribute(b, q) {
        Ok((a, e)) => {
            let mut attrs = attrs;
            let ghost before = attrs@;
            attrs.push(a);
            assert(attributes_model(attrs@) =~= attributes_model(before).push(a.model()));
            parse_more_attributes(b, e, attrs)
        },
        Err(Failure::Backtrack) => Ok((attrs, pos)),
        Err(f) => Err(f),
    }
}

/// Reads attributes separated by commas; there may be none.
pub fn parse_attribute_list(b: &[u8], pos: usize) -> (r: Result<(Vec<Attribute>, usize), Failure>)
    requires
        pos <= b@.len(),
    ensures
        attributes_result(r) == attribute_list_at(b@, pos as int),
        r matches Ok((_, end)) ==> pos <= end <= b@.len(),
{
    let attrs: Vec<Attribute> = Vec::new();
    match parse_attribute(b, pos) {
        Ok((a, e)) => {
            let mut attrs = attrs;
            attrs.push(a);
            assert(attributes_model(attrs@) =~= seq![a.model()]);
            parse_more_attributes(b, e, attrs)
        },
        Err(Failure::Backtrack) => {
            assert(attributes_model(attrs@) =~= Seq::<AttributeModel>::empty());
            Ok((attrs, pos))
        },
        Err(f) => Err(f),
    }
}

/// Blanks and an attribute list at `p`, or nothing.
pub open spec fn optional_attributes_at(b: Seq<u8>, p: int) -> Result<
    (Seq<AttributeModel>, int),
    Failure,
> {
    match blanks1_at(b, p) {
        Some(q) => attribute_list_at(b, q),
        None => Ok((Seq::empty(), p)),
    }
}

/// Blanks and an attribute list, or nothing.
fn parse_optional_attribute_list(b: &[u8], pos: usize) -> (r: Result<
    (Vec<Attribute>, usize),
    Failure,
>)
    requires
        pos <= b@.len(),
    ensures
        attributes_result(r) == optional_attributes_at(b@, pos as int),
        r matches Ok((_, end)) ==> pos <= end <= b@.len(),
{
    let found = blanks1(b, pos);
    match found {
        Some(q) => parse_attribute_list(b, q),
        None => {
            let v: Vec<Attribute> = Vec::new();
            assert(attributes_model(v@) =~= Seq::<AttributeModel>::empty());
            Ok((v, pos))
        },
    }
}

/// `name keyword attributes`: the name, the attributes and where they end.
pub open spec fn named_declaration_at(b: Seq<u8>, p: int, k: Seq<u8>) -> Result<
    (Seq<char>, Seq<AttributeModel>, int),
    Failure,
> {
    match symbol_at(b, blank_end(b, p)) {
        None => Err(Failure::Backtrack),
        Some((name, q)) => match blanks1_at(b, q) {
            None => Err(Failure::Backtrack),
            Some(q1) => if keyword_matches(b, q1, k, true) {
                match optional_attributes_at(b, q1 + k.len()) {
                    Ok((attrs, e)) => Ok((name, attrs, e)),
                    Err(f) => Err(f),
                }
            } else {
                Err(Failure::Backtrack)
            },
        },
    }
}

/// `name keyword attributes`, after optional blanks.
fn parse_named_declaration(b: &[u8], pos: usize, keyword: &str) -> (r: Result<
    (String, Vec<Attribute>, usize),
    Failure,
>)
    requires
        pos <= b@.len(),
    ensures
        match r {
            Ok((n, v, e)) => named_declaration_at(b@, pos as int, keyword.spec_bytes()) == Ok::<
                (Seq<char>, Seq<AttributeModel>, int),
                Failure,
            >((n@, attributes_model(v@), e as int)),
            Err(f) => named_declaration_at(b@, pos as int, keyword.spec_bytes()) == Err::<
                (Seq<char>, Seq<AttributeModel>, int),
                Failure,
            >(f),
        },
        r matches Ok((_, _, end)) ==> pos <= end <= b@.len(),
{
    let p = skip_blanks(b, pos);
    let (name, q) = match parse_symbol(b, p) {
        Ok(x) => x,
        Err(f) => {
            return Err(f);
        },
    };
    assert(symbol_at(b@, (p) as int) == Some((name@, q as int)));
    let found6 = blanks1(b, q);
    let q1 = match found6 {
        Some(x) => x,
        None => {
            return Err(Failure::Backtrack);
        },
    };
    assert(blanks1_at(b@, q as int) == Some(q1 as int));
    let q2 = match keyword_at(b, q1, keyword, true) {
        Some(x) => x,
        None => {
            return Err(Failure::Backtrack);
        },
    };
    match parse_optional_attribute_list(b, q2) {
        Ok((attributes, e)) => Ok((name, attributes, e)),
        Err(f) => Err(f),
    }
}

/// `section name[,group]`.
pub open spec fn section_with_name_at(b: Seq<u8>, p: int) -> Result<(CommandModel, int), Failure> {
    match command_keyword_at(b, p, "section".spec_bytes()) {
        None => Err(Failure::Backtrack),
        Some(q0) => match symbol_at(b, q0) {
            None => Err(Failure::Backtrack),
            Some((name, q)) => {
                let g = if byte_is(b, q, 0x2C) {
                    symbol_at(b, q + 1)
                } else {
                    None
                };
                match g {
                    Some((group, e)) => Ok(
                        (CommandModel::Section(name, Some(group), Seq::empty()), e),
                    ),
                    None => Ok((CommandModel::Section(name, None, Seq::empty()), q)),
                }
            },
        },
    }
}

fn parse_command_section_with_name(b: &[u8], pos: usize) -> (r: Result<(Command, usize), Failure>)
    requires
        pos <= b@.len(),
    ensures
        command_result(r) == section_with_name_at(b@, pos as int),
        r matches Ok((_, end)) ==> pos <= end <= b@.len(),
{
    let found7 = command_keyword(b, pos, "section");
    let p = match found7 {
        Ok(p) => p,
        Err(f) => {
            return Err(f);
        },
    };
    assert(command_keyword_at(b@, pos as int, "section".spec_bytes()) == Some(p as int));
    let (name, q) = match parse_symbol(b, p) {
        Ok(x) => x,
        Err(f) => {
            return Err(f);
        },
    };
    assert(symbol_at(b@, (p) as int) == Some((name@, q as int)));
    let mut group: Option<String> = None;
    let mut e = q;
    if byte_at(b, q, 0x2C) {
        if let Ok((g, q2)) = parse_symbol(b, q + 1) {
            group = Some(g);
            e = q2;
        }
    }
    let attributes: Vec<Attribute> = Vec::new();
    assert(attributes_model(attributes@) =~= Seq::<AttributeModel>::empty());
    Ok((Command::Section { name, group, attributes }, e))
}

/// `name alias target`.
pub open spec fn alias_at(b: Seq<u8>, p: int) -> Result<(CommandModel, int), Failure> {
    match symbol_at(b, blank_end(b, p)) {
        None => Err(Failure::Backtrack),
        Some((name, q)) => match blanks1_at(b, q) {
            None => Err(Failure::Backtrack),
            Some(q1) => if keyword_matches(b, q1, "alias".spec_bytes(), true) {
                match blanks1_at(b, q1 + "alias".spec_bytes().len()) {
                    None => Err(Failure::Backtrack),
                    Some(q3) => match symbol_at(b, q3) {
                        Some((target, e)) => Ok((CommandModel::Alias(name, target), e)),
                        None => Err(Failure::Backtrack),
                    },
                }
            } else {
                Err(Failure::Backtrack)
            },
        },
    }
}

fn parse_command_alias(b: &[u8], pos: usize) -> (r: Result<(Command, usize), Failure>)
    requires
        pos <= b@.len(),
    ensures
        command_result(r) == alias_at(b@, pos as int),
        r matches Ok((_, end)) ==> pos <= end <= b@.len(),
{
    let p = skip_blanks(b, pos);
    let (name, q) = match parse_symbol(b, p) {
        Ok(x) => x,
        Err(f) => {
            return Err(f);
        },
    };
    assert(symbol_at(b@, (p) as int) == Some((name@, q as int)));
    let found8 = blanks1(b, q);
    let q1 = match found8 {
        Some(x) => x,
        None => {
            return Err(Failure::Backtrack);
        },
    };
    assert(blanks1_at(b@, q as int) == Some(q1 as int));
    let q2 = match keyword_at(b, q1, "alias", true) {
        Some(x) => x,
        None => {
            return Err(Failure::Backtrack);
        },
    };
    let found9 = blanks1(b, q2);
    let q3 = match found9 {
        Some(x) => x,
        None => {
            return Err(Failure::Backtrack);
        },
    };
    assert(blanks1_at(b@, q2 as int) == Some(q3 as int));
    match parse_symbol(b, q3) {
        Ok((target, e)) => Ok((Command::Alias { name, target }, e)),
        Err(f) => Err(f),
    }
}

/// `acc` followed by the symbols that follow `p`, each after a comma.
pub open spec fn more_symbols_at(b: Seq<u8>, p: int, acc: Seq<Seq<char>>) -> (Seq<Seq<char>>, int)
    decreases b.len() - p,
{
    match separator_at(b, p) {
        None => (acc, p),
        Some(q) => match symbol_at(b, q) {
            Some((s, e)) => if p < e <= b.len() {
                more_symbols_at(b, e, acc.push(s))
            } else {
                (acc, p)
            },
            None => (acc, p),
        },
    }
}

/// One or more symbols separated by commas at `p`.
pub open spec fn symbol_list_at(b: Seq<u8>, p: int) -> Option<(Seq<Seq<char>>, int)> {
    match symbol_at(b, p) {
        None => None,
        Some((s, e)) => Some(more_symbols_at(b, e, seq![s])),
    }
}

fn parse_more_symbols(b: &[u8], pos: usize, symbols: Vec<String>) -> (r: (Vec<String>, usize))
    requires
        pos <= b@.len(),
    ensures
        (symbols_model(r.0@), r.1 as int) == more_symbols_at(b@, pos as int, symbols_model(symbols@)),
        pos <= r.1 <= b@.len(),
    decreases b@.len() - pos,
{
    let found10 = list_separator(b, pos);
    let q = match found10 {
        Some(q) => q,
        None => {
            return (symbols, pos);
        },
    };
    assert(separator_at(b@, pos as int) == Some(q as int));
    match parse_symbol(b, q) {
        Ok((s, e)) => {
            let mut symbols = symbols;
            let ghost before = symbols@;
            symbols.push(s);
            assert(symbols_model(symbols@) =~= symbols_model(before).push(s@));
            parse_more_symbols(b, e, symbols)
        },
        Err(_) => (symbols, pos),
    }
}

/// Reads one or more symbols separated by commas.
fn parse_symbol_list(b: &[u8], pos: usize) -> (r: Result<(Vec<String>, usize), Failure>)
    requires
        pos <= b@.len(),
    ensures
        match symbol_list_at(b@, pos as int) {
            Some((v, e)) => r matches Ok((x, end)) && symbols_model(x@) == v && end == e,
            None => r == Err::<(Vec<String>, usize), Failure>(Failure::Backtrack),
        },
        r matches Ok((_, end)) ==> pos <= end <= b@.len(),
{
    let (first, p) = match parse_symbol(b, pos) {
        Ok(x) => x,
        Err(f) => {
            return Err(f);
        },
    };
    assert(symbol_at(b@, (pos) as int) == Some((first@, p as int)));
    let mut symbols: Vec<String> = Vec::new();
    symbols.push(first);
    assert(symbols_model(symbols@) =~= seq![first@]);
    let (v, e) = parse_more_symbols(b, p, symbols);
    Ok((v, e))
}

/// `keyword` followed by a list of symbols.
pub open spec fn symbols_command_at(b: Seq<u8>, p: int, k: Seq<u8>) -> Option<(Seq<Seq<char>>, int)> {
    match command_keyword_at(b, p, k) {
        None => None,
        Some(q) => symbol_list_at(b, q),
    }
}

fn parse_command_symbols(b: &[u8], pos: usize, keyword: &str) -> (r: Result<
    (Vec<String>, usize),
    Failure,
>)
    requires
        pos <= b@.len(),
    ensures
        match symbols_command_at(b@, pos as int, keyword.spec_bytes()) {
            Some((v, e)) => r matches Ok((x, end)) && symbols_model(x@) == v && end == e,
            None => r == Err::<(Vec<String>, usize), Failure>(Failure::Backtrack),
        },
        r matches Ok((_, end)) ==> pos <= end <= b@.len(),
{
    let found11 = command_keyword(b, pos, keyword);
    let p = match found11 {
        Ok(p) => p,
        Err(f) => {
            return Err(f);
        },
    };
    assert(command_keyword_at(b@, pos as int, keyword.spec_bytes()) == Some(p as int));
    parse_symbol_list(b, p)
}

/// `public on` or `public off`, in any case.
pub open spec fn public_at(b: Seq<u8>, p: int) -> Result<(CommandModel, int), Failure> {
    match command_keyword_at(b, p, "public".spec_bytes()) {
        None => Err(Failure::Backtrack),
        Some(q) => if keyword_matches(b, q, "on".spec_bytes(), true) && "on".spec_bytes().len() > 0 {
            Ok((CommandModel::Public(true), q + "on".spec_bytes().len()))
        } else if keyword_matches(b, q, "off".spec_bytes(), true) && "off".spec_bytes().len() > 0 {
            Ok((CommandModel::Public(false), q + "off".spec_bytes().len()))
        } else {
            Err(Failure::Backtrack)
        },
    }
}

fn parse_command_public(b: &[u8], pos: usize) -> (r: Result<(Command, usize), Failure>)
    requires
        pos <= b@.len(),
    ensures
        command_result(r) == public_at(b@, pos as int),
        r matches Ok((_, end)) ==> pos <= end <= b@.len(),
{
    let found12 = command_keyword(b, pos, "public");
    let p = match found12 {
        Ok(p) => p,
        Err(f) => {
            return Err(f);
        },
    };
    assert(command_keyword_at(b@, pos as int, "public".spec_bytes()) == Some(p as int));
    if let Some(e) = keyword_at(b, p, "on", true) {
        if e > p {
            return Ok((Command::Public { public: true }, e));
        }
    }
    if let Some(e) = keyword_at(b, p, "off", true) {
        if e > p {
            return Ok((Command::Public { public: false }, e));
        }
    }
    Err(Failure::Backtrack)
}

/// A filename command as a command result.
pub open spec fn filename_as_command(r: Option<(Seq<char>, int)>, lib: bool) -> Result<
    (CommandModel, int),
    Failure,
> {
    match r {
        Some((s, e)) => Ok((if lib { CommandModel::IncLib(s) } else { CommandModel::Include(s) }, e)),
        None => Err(Failure::Backtrack),
    }
}

/// A symbol-list command as a command result.
pub open spec fn symbols_as_command(r: Option<(Seq<Seq<char>>, int)>, kind: int) -> Result<
    (CommandModel, int),
    Failure,
> {
    match r {
        Some((v, e)) => Ok((
            if kind == 0 {
                CommandModel::Global(v)
            } else if kind == 1 {
                CommandModel::XDef(v)
            } else {
                CommandModel::XRef(v)
            },
            e,
        )),
        None => Err(Failure::Backtrack),
    }
}

/// `a`, unless it backtracks; then `c`.
pub open spec fn or_else(
    a: Result<(CommandModel, int), Failure>,
    c: Result<(CommandModel, int), Failure>,
) -> Result<(CommandModel, int), Failure> {
    if a == Err::<(CommandModel, int), Failure>(Failure::Backtrack) {
        c
    } else {
        a
    }
}

/// An integer command as a command result.
pub open spec fn integer_as_command(r: Result<(u64, int), Failure>, kind: int) -> Result<
    (CommandModel, int),
    Failure,
> {
    match r {
        Ok((v, e)) => Ok((
            if kind == 0 {
                CommandModel::Origin(v)
            } else if kind == 1 {
                CommandModel::Workspace(v)
            } else {
                CommandModel::Unit(v)
            },
            e,
        )),
        Err(f) => Err(f),
    }
}

/// A named declaration as a command result: a group, or a section.
pub open spec fn declaration_as_command(
    r: Result<(Seq<char>, Seq<AttributeModel>, int), Failure>,
    section: bool,
) -> Result<(CommandModel, int), Failure> {
    match r {
        Ok((n, a, e)) => Ok((
            if section {
                CommandModel::Section(n, None, a)
            } else {
                CommandModel::Group(n, a)
            },
            e,
        )),
        Err(f) => Err(f),
    }
}

/// The command at `p`: the first of the forms `include "f"`, `inclib "f"`,
/// `org n`, `workspace n`, `sym = expr` (or `EQU`), `regs r=expr`,
/// `name group attrs`, `name section attrs`, `section name[,group]`,
/// `name alias target`, `unit n`, `global`/`xdef`/`xref` symbols and
/// `public on|off` that does not backtrack; a hard error in a form ends the
/// search.
pub open spec fn command_at(b: Seq<u8>, p: int) -> Result<(CommandModel, int), Failure> {
    or_else(
        filename_as_command(filename_command_at(b, p, "include".spec_bytes()), false),
        or_else(
            filename_as_command(filename_command_at(b, p, "inclib".spec_bytes()), true),
            or_else(
                integer_as_command(integer_command_at(b, p, "org".spec_bytes()), 0),
                or_else(
                    integer_as_command(integer_command_at(b, p, "workspace".spec_bytes()), 1),
                    or_else(
                        equals_at(b, p),
                        or_else(
                            regs_at(b, p),
                            or_else(
                                declaration_as_command(
                                    named_declaration_at(b, p, "group".spec_bytes()),
                                    false,
                                ),
                                or_else(
                                    declaration_as_command(
                                        named_declaration_at(b, p, "section".spec_bytes()),
                                        true,
                                    ),
                                    or_else(
                                        section_with_name_at(b, p),
                                        or_else(
                                            alias_at(b, p),
                                            or_else(
                                                integer_as_command(
                                                    integer_command_at(b, p, "unit".spec_bytes()),
                                                    2,
                                                ),
                                                or_else(
                                                    symbols_as_command(
                                                        symbols_command_at(b, p, "global".spec_bytes()),
                                                        0,
                                                    ),
                                                    or_else(
                                                        symbols_as_command(
                                                            symbols_command_at(
                                                                b,
                                                                p,
                                                                "xdef".spec_bytes(),
                                                            ),
                                                            1,
                                                        ),
                                                        or_else(
                                                            symbols_as_command(
                                                                symbols_command_at(
                                                                    b,
                                                                    p,
                                                                    "xref".spec_bytes(),
                                                                ),
                                                                2,
                                                            ),
                                                            public_at(b, p),
                                                        ),
                                                    ),
                                                ),
                                            ),
                                        ),
                                    ),
                                ),
                            ),
                        ),
                    ),
                ),
            ),
        ),
    )
}

/// Tries the command forms in order at `pos`; the first that matches wins,
/// and an error that ends the parse stops the search.
#[verifier::rlimit(100)]
fn parse_command(b: &[u8], pos: usize) -> (r: Result<(Command, usize), Failure>)
    requires
        pos <= b@.len(),
    ensures
        command_result(r) == command_at(b@, pos as int),
        r matches Ok((_, end)) ==> pos <= end <= b@.len(),
{
    match parse_command_generic_filename(b, pos, "include") {
        Ok((filename, e)) => {
            return Ok((Command::Include { filename }, e));
        },
        Err(Failure::Backtrack) => {},
        Err(err) => {
            return Err(err);
        },
    }
    match parse_command_generic_filename(b, pos, "inclib") {
        Ok((filename, e)) => {
            return Ok((Command::IncLib { filename }, e));
        },
        Err(Failure::Backtrack) => {},
        Err(err) => {
            return Err(err);
        },
    }
    match parse_command_integer(b, pos, "org") {
        Ok((address, e)) => {
            return Ok((Command::Origin { address }, e));
        },
        Err(Failure::Backtrack) => {},
        Err(err) => {
            return Err(err);
        },
    }
    match parse_command_integer(b, pos, "workspace") {
        Ok((address, e)) => {
            return Ok((Command::Workspace { address }, e));
        },
        Err(Failure::Backtrack) => {},
        Err(err) => {
            return Err(err);
        },
    }
    match parse_command_equals(b, pos) {
        Err(Failure::Backtrack) => {},
        other => {
            return other;
        },
    }
    match parse_command_regs(b, pos) {
        Err(Failure::Backtrack) => {},
        other => {
            return other;
        },
    }
    match parse_named_declaration(b, pos, "group") {
        Ok((name, attributes, e)) => {
            return Ok((Command::Group { name, attributes }, e));
        },
        Err(Failure::Backtrack) => {},
        Err(err) => {
            return Err(err);
        },
    }
    match parse_named_declaration(b, pos, "section") {
        Ok((name, attributes, e)) => {
            return Ok((Command::Section { name, group: None, attributes }, e));
        },
        Err(Failure::Backtrack) => {},
        Err(err) => {
            return Err(err);
        },
    }
    match parse_command_section_with_name(b, pos) {
        Err(Failure::Backtrack) => {},
        other => {
            return other;
        },
    }
    match parse_command_alias(b, pos) {
        Err(Failure::Backtrack) => {},
        other => {
            return other;
        },
    }
    match parse_command_integer(b, pos, "unit") {
        Ok((unitnum, e)) => {
            return Ok((Command::Unit { unitnum }, e));
        },
        Err(Failure::Backtrack) => {},
        Err(err) => {
            return Err(err);
        },
    }
    match parse_command_symbols(b, pos, "global") {
        Ok((symbols, e)) => {
            return Ok((Command::Global { symbols }, e));
        },
        Err(Failure::Backtrack) => {},
        Err(err) => {
            return Err(err);
        },
    }
    match parse_command_symbols(b, pos, "xdef") {
        Ok((symbols, e)) => {
            return Ok((Command::XDef { symbols }, e));
        },
        Err(Failure::Backtrack) => {},
        Err(err) => {
            return Err(err);
        },
    }
    match parse_command_symbols(b, pos, "xref") {
        Ok((symbols, e)) => {
            return Ok((Command::XRef { symbols }, e));
        },
        Err(Failure::Backtrack) => {},
        Err(err) => {
            return Err(err);
        },
    }
    parse_command_public(b, pos)
}

/// The position of the first line feed from `p` on, or the end.
pub open spec fn line_end(b: Seq<u8>, p: int) -> int
    decreases b.len() - p,
{
    if 0 <= p < b.len() && b[p] != 0x0A {
        line_end(b, p + 1)
    } else {
        p
    }
}

/// A comment at `p`: blanks, `;`, blanks, then its text up to the end of
/// the line; the text and where it ends.
pub open spec fn comment_at(b: Seq<u8>, p: int) -> Option<(Seq<char>, int)> {
    let q = blank_end(b, p);
    if byte_is(b, q, 0x3B) {
        let start = blank_end(b, q + 1);
        let e = line_end(b, start);
        Some((lossy_text(b.subrange(start, e)), e))
    } else {
        None
    }
}

/// Reads a comment at `pos`: optional blanks, `;`, optional blanks, then
/// everything up to the end of the line.
fn parse_comment(b: &[u8], pos: usize) -> (r: Option<(Comment, usize)>)
    requires
        pos <= b@.len(),
    ensures
        match comment_at(b@, pos as int) {
            Some((t, e)) => r matches Some((c, end)) && c.comment@ == t && end == e,
            None => r is None,
        },
        r matches Some((_, end)) ==> pos < end <= b@.len(),
{
    let p = skip_blanks(b, pos);
    if !byte_at(b, p, 0x3B) {
        return None;
    }
    let start = skip_blanks(b, p + 1);
    let mut e = start;
    while e < b.len() && b[e] != 0x0A
        invariant
            start <= e <= b@.len(),
            line_end(b@, e as int) == line_end(b@, start as int),
        decreases b@.len() - e,
    {
        e = e + 1;
    }
    let comment = text_at(b, start, e);
    Some((Comment { comment }, e))
}

/// The parse of a line: its command and its comment, if any, and where
/// they end; a hard error in a command form is the result instead.
pub open spec fn line_at(b: Seq<u8>) -> Result<
    (Option<CommandModel>, Option<Seq<char>>, int),
    ScriptError,
> {
    let c = command_at(b, 0);
    let (command, p) = match c {
        Ok((m, e)) => (Some(m), e),
        _ => (None, 0),
    };
    match c {
        Err(Failure::Cut(err)) => Err(err),
        _ => match comment_at(b, p) {
            Some((t, e)) => Ok((command, Some(t), e)),
            None => Ok((command, None, p)),
        },
    }
}

/// Parses a line of a linker script from its start: at most one command,
/// then at most one comment, and where they end. Bytes after them are left
/// unread.
pub fn parse_line(input: &str) -> (r: Result<(Option<Command>, Option<Comment>, usize), ScriptError>)
    ensures
        match line_at(input.spec_bytes()) {
            Ok((c, t, e)) => r matches Ok((x, y, end)) && end == e && match c {
                Some(m) => x matches Some(cx) && cx.model() == m,
                None => x is None,
            } && match t {
                Some(text) => y matches Some(cy) && cy.comment@ == text,
                None => y is None,
            },
            Err(err) => r == Err::<(Option<Command>, Option<Comment>, usize), ScriptError>(err),
        },
{
    let b = input.as_bytes();
    let (command, p) = match parse_command(b, 0) {
        Ok((c, e)) => (Some(c), e),
        Err(Failure::Backtrack) => (None, 0),
        Err(Failure::Cut(e)) => {
            return Err(e);
        },
    };
    match parse_comment(b, p) {
        Some((c, e)) => Ok((command, Some(c), e)),
        None => Ok((command, None, p)),
    }
}

/// Parses an expression from the start of `input` and gives where it ends;
/// what follows it is left unread.
pub fn parse_expression_text(input: &str) -> (r: Result<(Expression, usize), ScriptError>)
    ensures
        match expression_at(input.spec_bytes(), 0) {
            Ok((m, e)) => r matches Ok((x, end)) && x.model() == m && end == e,
            Err(Failure::Backtrack) => r == Err::<(Expression, usize), ScriptError>(
                ScriptError { kind: ScriptErrorKind::ExpectedExpression, position: 0 },
            ),
            Err(Failure::Cut(err)) => r == Err::<(Expression, usize), ScriptError>(err),
        },
{
    let b = input.as_bytes();
    match parse_expression(b, 0) {
        Ok((e, end)) => Ok((e, end)),
        Err(Failure::Backtrack) => Err(
            ScriptError { kind: ScriptErrorKind::ExpectedExpression, position: 0 },
        ),
        Err(Failure::Cut(e)) => Err(e),
    }
}

/// The printed form of an expression tree: `$` and lower-case hexadecimal
/// for a constant, the name for a symbol, `(lhs op rhs)` for a binary
/// operation, `(op operand)` for a unary one, `(inner)` for parentheses and
/// `name(arg)` for a function.
pub open spec fn script_text(m: ExprModel) -> Seq<u8>
    decreases m,
{
    match m {
        ExprModel::Constant(n) => "$".spec_bytes() + crate::listing::hex_text(n, 0),
        ExprModel::Symbol(s) => encode_utf8(s),
        ExprModel::Binary(l, op, r) => "(".spec_bytes() + script_text(*l) + " ".spec_bytes()
            + binary_op_text(op).spec_bytes() + " ".spec_bytes() + script_text(*r) + ")".spec_bytes(),
        ExprModel::Unary(op, x) => "(".spec_bytes() + unary_op_text(op).spec_bytes() + script_text(*x)
            + ")".spec_bytes(),
        ExprModel::Parens(x) => "(".spec_bytes() + script_text(*x) + ")".spec_bytes(),
        ExprModel::Function(name, x) => encode_utf8(name) + "(".spec_bytes() + script_text(*x)
            + ")".spec_bytes(),
    }
}

fn push_text(out: &mut Vec<u8>, s: &String)
    ensures
        final(out)@ == old(out)@ + encode_utf8(s@),
{
    crate::listing::push_str(out, s.as_str());
}

/// Appends the printed form of `e`, `script_text` of its tree.
pub fn push_script_expression(out: &mut Vec<u8>, e: &Expression)
    ensures
        final(out)@ == old(out)@ + script_text(e.model()),
    decreases e,
{
    let ghost start = out@;
    match e {
        Expression::Constant(n) => {
            crate::listing::push_str(out, "$");
            crate::listing::push_hex(out, *n, 0);
        },
        Expression::Symbol(s) => push_text(out, s),
        Expression::Binary { left, op, right } => {
            crate::listing::push_str(out, "(");
            push_script_expression(out, left);
            crate::listing::push_str(out, " ");
            crate::listing::push_str(out, op.symbol());
            crate::listing::push_str(out, " ");
            push_script_expression(out, right);
            crate::listing::push_str(out, ")");
        },
        Expression::Unary { op, operand } => {
            crate::listing::push_str(out, "(");
            crate::listing::push_str(out, op.symbol());
            push_script_expression(out, operand);
            crate::listing::push_str(out, ")");
        },
        Expression::Parens(inner) => {
            crate::listing::push_str(out, "(");
            push_script_expression(out, inner);
            crate::listing::push_str(out, ")");
        },
        Expression::Function { name, arg } => {
            push_text(out, name);
            crate::listing::push_str(out, "(");
            push_script_expression(out, arg);
            crate::listing::push_str(out, ")");
        },
    }
    assert(out@ =~= start + script_text(e.model()));
}

/// `e` with every parenthesized node replaced by what it holds.
pub open spec fn unparenthesized(e: Expression) -> Expression
    decreases e,
{
    match e {
        Expression::Binary { left, op, right } => Expression::Binary {
            left: Box::new(unparenthesized(*left)),
            op,
            right: Box::new(unparenthesized(*right)),
        },
        Expression::Unary { op, operand } => Expression::Unary {
            op,
            operand: Box::new(unparenthesized(*operand)),
        },
        Expression::Parens(inner) => unparenthesized(*inner),
        Expression::Function { name, arg } => Expression::Function {
            name,
            arg: Box::new(unparenthesized(*arg)),
        },
        _ => e,
    }
}

impl Expression {
    /// This expression without its parenthesized nodes, which only group.
    pub fn strip_parens(&self) -> (r: Expression)
        ensures
            r == unparenthesized(*self),
        decreases self,
    {
        match self {
            Expression::Constant(n) => Expression::Constant(*n),
            Expression::Symbol(s) => {
                let c = s.clone();
                assert(c == *s) by {
                    assert(c@ == s@);
                }
                Expression::Symbol(c)
            },
            Expression::Binary { left, op, right } => Expression::Binary {
                left: Box::new(left.strip_parens()),
                op: *op,
                right: Box::new(right.strip_parens()),
            },
            Expression::Unary { op, operand } => Expression::Unary {
                op: *op,
                operand: Box::new(operand.strip_parens()),
            },
            Expression::Parens(inner) => inner.strip_parens(),
            Expression::Function { name, arg } => {
                let c = name.clone();
                assert(c == *name) by {
                    assert(c@ == name@);
                }
                Expression::Function { name: c, arg: Box::new(arg.strip_parens()) }
            },
        }
    }

    /// The printed form of this expression, `script_text` of its tree.
    pub fn to_text(&self) -> (r: String)
        ensures
            r@ == lossy_text(script_text(self.model())),
    {
        let mut out: Vec<u8> = Vec::new();
        push_script_expression(&mut out, self);
        assert(out@ =~= script_text(self.model()));
        text_of(&out)
    }
}

} // verus!
