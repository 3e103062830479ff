use vstd::prelude::*;

use crate::model::{Argument, Constant, Register, Statement};
use crate::text::push_char;

verus! {

/// What `String::from_utf8_lossy` makes of a byte sequence.
pub uninterp spec fn utf8_lossy(b: Seq<u8>) -> Seq<char>;

/// Whether every byte is ASCII.
pub open spec fn all_ascii(b: Seq<u8>) -> bool {
    forall|i: int| 0 <= i < b.len() ==> #[trigger] b[i] < 128
}

/// The characters of ASCII bytes, one for one.
pub open spec fn ascii_chars(b: Seq<u8>) -> Seq<char> {
    b.map_values(|x: u8| x as char)
}

/// Relies on `String::from_utf8_lossy`: the bytes decoded as UTF-8, with each
/// invalid sequence replaced; valid UTF-8, such as ASCII, is decoded as it is.
#[verifier::external_body]
fn decode_lossy(b: &Vec<u8>) -> (r: String)
    ensures
        r@ == utf8_lossy(b@),
        all_ascii(b@) ==> r@ == ascii_chars(b@),
{
    String::from_utf8_lossy(b.as_slice()).into_owned()
}

/// The character of a decimal digit.
pub open spec fn digit_char(d: nat) -> char {
    ((d + 48) as u8) as char
}

/// The decimal digits of a natural number, most significant first.
pub open spec fn decimal(n: nat) -> Seq<char>
    decreases n,
{
    if n < 10 {
        seq![digit_char(n)]
    } else {
        decimal(n / 10).push(digit_char(n % 10))
    }
}

/// The decimal text of an integer, with a minus sign when it is negative.
pub open spec fn int_text(n: int) -> Seq<char> {
    if n < 0 {
        seq!['-'] + decimal((-n) as nat)
    } else {
        decimal(n as nat)
    }
}

/// A register's name: `x` and its number.
pub open spec fn register_text(r: Register) -> Seq<char> {
    seq!['x'] + decimal(r.0 as nat)
}

/// A constant's text: its decimal value, or `%hi(sym)` / `%lo(sym)`.
pub open spec fn constant_text(c: Constant) -> Seq<char> {
    match c {
        Constant::Number(n) => int_text(n as int),
        Constant::HiDataRef(s) => "%hi("@ + s@ + ")"@,
        Constant::LoDataRef(s) => "%lo("@ + s@ + ")"@,
    }
}

/// An operand's text; a string literal is quoted around its lossy decoding.
pub open spec fn argument_text(a: Argument) -> Seq<char> {
    match a {
        Argument::Register(r) => register_text(r),
        Argument::Constant(c) => constant_text(c),
        Argument::RegOffset(r, c) => constant_text(c) + "("@ + register_text(r) + ")"@,
        Argument::StringLiteral(b) => "\""@ + utf8_lossy(b@) + "\""@,
        Argument::Symbol(s) => s@,
        Argument::Difference(l, r) => l@ + " - "@ + r@,
    }
}

/// The operands' texts joined by `", "`.
pub open spec fn arguments_text(args: Seq<Argument>) -> Seq<char>
    decreases args.len(),
{
    if args.len() == 0 {
        Seq::empty()
    } else if args.len() == 1 {
        argument_text(args[0])
    } else {
        arguments_text(args.drop_last()) + ", "@ + argument_text(args.last())
    }
}

/// The canonical line of a statement, ending in a line feed.
pub open spec fn statement_text(s: Statement) -> Seq<char> {
    match s {
        Statement::Label(l) => l@ + ":\n"@,
        Statement::Directive(d, args) => "  ."@ + d@ + " "@ + arguments_text(args@) + "\n"@,
        Statement::Instruction(i, args) => "  "@ + i@ + " "@ + arguments_text(args@) + "\n"@,
    }
}

/// Appends the decimal digits of `n`.
fn push_decimal(out: &mut String, n: u64)
    ensures
        final(out)@ == old(out)@ + decimal(n as nat),
    decreases n,
{
    if n >= 10 {
        push_decimal(out, n / 10);
    }
    let d: u8 = (n % 10) as u8;
    push_char(out, (d + 48) as char);
    assert(final(out)@ =~= old(out)@ + decimal(n as nat));
}

/// Appends the decimal text of `n`.
fn push_int(out: &mut String, n: i64)
    ensures
        final(out)@ == old(out)@ + int_text(n as int),
{
    if n < 0 {
        push_char(out, '-');
        let m: u64 = (-(n as i128)) as u64;
        push_decimal(out, m);
        assert(final(out)@ =~= old(out)@ + int_text(n as int));
    } else {
        push_decimal(out, n as u64);
    }
}

/// Appends `"` + `text` + `"`: a string literal whose bytes decoded to `text`.
pub fn push_quoted(out: &mut String, text: &str)
    ensures
        final(out)@ == old(out)@ + "\""@ + text@ + "\""@,
{
    out.append("\"");
    out.append(text);
    out.append("\"");
}

impl Register {
    /// The register's name, `x` and its number.
    pub fn to_string(&self) -> (r: String)
        ensures
            r@ == register_text(*self),
    {
        let mut out = String::new();
        push_char(&mut out, 'x');
        push_decimal(&mut out, self.0 as u64);
        assert(out@ =~= register_text(*self));
        out
    }
}

/// Appends a constant's text.
fn push_constant(out: &mut String, c: &Constant)
    ensures
        final(out)@ == old(out)@ + constant_text(*c),
{
    match c {
        Constant::Number(n) => push_int(out, *n),
        Constant::HiDataRef(s) => {
            out.append("%hi(");
            out.append(s.as_str());
            out.append(")");
            assert(final(out)@ =~= old(out)@ + constant_text(*c));
        },
        Constant::LoDataRef(s) => {
            out.append("%lo(");
            out.append(s.as_str());
            out.append(")");
            assert(final(out)@ =~= old(out)@ + constant_text(*c));
        },
    }
}

impl Constant {
    /// The constant's text: a decimal number, or `%hi(..)` / `%lo(..)`.
    pub fn to_string(&self) -> (r: String)
        ensures
            r@ == constant_text(*self),
    {
        let mut out = String::new();
        push_constant(&mut out, self);
        assert(out@ =~= constant_text(*self));
        out
    }
}

/// Appends an operand's text.
fn push_argument(out: &mut String, a: &Argument)
    ensures
        final(out)@ == old(out)@ + argument_text(*a),
{
    match a {
        Argument::Register(r) => {
            let t = r.to_string();
            out.append(t.as_str());
        },
        Argument::Constant(c) => push_constant(out, c),
        Argument::RegOffset(r, c) => {
            push_constant(out, c);
            out.append("(");
            let t = r.to_string();
            out.append(t.as_str());
            out.append(")");
        },
        Argument::StringLiteral(b) => {
            let text = decode_lossy(b);
            push_quoted(out, text.as_str());
        },
        Argument::Symbol(s) => out.append(s.as_str()),
        Argument::Difference(l, r) => {
            out.append(l.as_str());
            out.append(" - ");
            out.append(r.as_str());
        },
    }
    assert(final(out)@ =~= old(out)@ + argument_text(*a));
}

impl Argument {
    /// The operand's canonical text.
    pub fn to_string(&self) -> (r: String)
        ensures
            r@ == argument_text(*self),
    {
        let mut out = String::new();
        push_argument(&mut out, self);
        assert(out@ =~= argument_text(*self));
        out
    }
}

/// Appends the operands' texts joined by `", "`.
fn push_arguments(out: &mut String, args: &[Argument])
    ensures
        final(out)@ == old(out)@ + arguments_text(args@),
{
    let mut i: usize = 0;
    assert(arguments_text(args@.subrange(0, 0)) =~= Seq::<char>::empty());
    while i < args.len()
        invariant
            i <= args@.len(),
            out@ == old(out)@ + arguments_text(args@.subrange(0, i as int)),
        decreases args.len() - i,
    {
        if i > 0 {
            out.append(", ");
        }
        push_argument(out, &args[i]);
        let ghost post = args@.subrange(0, i + 1);
        assert(post.drop_last() =~= args@.subrange(0, i as int));
        if i == 0 {
            assert(post[0] == args@[0]);
        }
        assert(out@ =~= old(out)@ + arguments_text(post));
        i = i + 1;
    }
    assert(args@.subrange(0, args@.len() as int) =~= args@);
}

/// The operands' texts joined by `", "`.
pub fn format_arguments(args: &[Argument]) -> (r: String)
    ensures
        r@ == arguments_text(args@),
{
    let mut out = String::new();
    push_arguments(&mut out, args);
    assert(out@ =~= arguments_text(args@));
    out
}

impl Statement {
    /// The statement's canonical line, ending in a line feed: `name:` for a
    /// label, `  .name args` for a directive, `  name args` for an instruction.
    pub fn to_string(&self) -> (r: String)
        ensures
            r@ == statement_text(*self),
    {
        let mut out = String::new();
        match self {
            Statement::Label(l) => {
                out.append(l.as_str());
                out.append(":\n");
            },
            Statement::Directive(d, args) => {
                out.append("  .");
                out.append(d.as_str());
                out.append(" ");
                push_arguments(&mut out, args.as_slice());
                out.append("\n");
            },
            Statement::Instruction(i, args) => {
                out.append("  ");
                out.append(i.as_str());
                out.append(" ");
                push_arguments(&mut out, args.as_slice());
                out.append("\n");
            },
        }
        assert(out@ =~= statement_text(*self));
        out
    }
}

} // verus!
