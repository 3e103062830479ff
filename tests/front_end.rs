use std::collections::HashSet;

use riscv_front::format::push_quoted;
use riscv_front::{
    extract_data_objects, extract_label_references, extract_labels, format_arguments, parse_asm,
    source_lines, unescape_string, Argument, AsmError, Constant, Register, Statement,
    TypeProcessor,
};

fn label(s: &str) -> Statement {
    Statement::Label(s.to_string())
}

fn sym(s: &str) -> Argument {
    Argument::Symbol(s.to_string())
}

fn directive(name: &str, args: Vec<Argument>) -> Statement {
    Statement::Directive(name.to_string(), args)
}

fn instruction(name: &str, args: Vec<Argument>) -> Statement {
    Statement::Instruction(name.to_string(), args)
}

fn object_type(name: &str) -> Statement {
    directive(".type", vec![sym(name), sym("@object")])
}

fn ascii(bytes: &[u8]) -> Statement {
    directive(".ascii", vec![Argument::StringLiteral(bytes.to_vec())])
}

fn number(n: i64) -> Argument {
    Argument::Constant(Constant::Number(n))
}

fn names(v: &[&str]) -> Vec<String> {
    v.iter().map(|s| s.to_string()).collect()
}

#[test]
fn labels_collapse_duplicates() {
    let stmts = vec![label("a"), label("b"), label("a")];
    assert_eq!(extract_labels(&stmts), names(&["a", "b"]));
}

#[test]
fn labels_sorted_whatever_the_order() {
    let stmts = vec![label("b"), instruction("nop", vec![]), label("a"), directive("text", vec![])];
    assert_eq!(extract_labels(&stmts), names(&["a", "b"]));
    let reordered = vec![label("a"), label("b")];
    assert_eq!(extract_labels(&reordered), extract_labels(&stmts));
}

#[test]
fn labels_of_nothing() {
    assert_eq!(extract_labels(&[]), Vec::<String>::new());
}

#[test]
fn references_ignore_directive_operands() {
    let stmts = vec![directive(".word", vec![sym("foo")]), instruction("jal", vec![sym("bar")])];
    assert_eq!(extract_label_references(&stmts), Ok(names(&["bar"])));
}

#[test]
fn references_through_relocations() {
    let stmts = vec![
        instruction(
            "lui",
            vec![
                Argument::Register(Register(5)),
                Argument::Constant(Constant::HiDataRef("data".to_string())),
            ],
        ),
        instruction(
            "lw",
            vec![
                Argument::Register(Register(6)),
                Argument::RegOffset(Register(5), Constant::LoDataRef("data".to_string())),
            ],
        ),
        instruction(
            "addi",
            vec![Argument::Register(Register(1)), Argument::RegOffset(Register(2), Constant::Number(4)), number(7)],
        ),
        instruction("call", vec![sym("alpha"), Argument::StringLiteral(b"zz".to_vec())]),
        label("zeta"),
    ];
    assert_eq!(extract_label_references(&stmts), Ok(names(&["alpha", "data"])));
}

#[test]
fn references_refuse_difference() {
    let stmts = vec![
        instruction("jal", vec![sym("bar")]),
        instruction("li", vec![Argument::Difference("a".to_string(), "b".to_string())]),
    ];
    assert_eq!(extract_label_references(&stmts), Err(AsmError::UnsupportedDifference));
}

#[test]
fn difference_in_directive_is_no_reference() {
    let stmts = vec![directive(".word", vec![Argument::Difference("a".to_string(), "b".to_string())])];
    assert_eq!(extract_label_references(&stmts), Ok(vec![]));
}

#[test]
fn ascii_directives_append() {
    let stmts = vec![object_type("X"), label("X"), ascii(b"AB"), ascii(b"C")];
    assert_eq!(
        extract_data_objects(&stmts),
        Ok(vec![("X".to_string(), vec![0x41, 0x42, 0x43])])
    );
}

#[test]
fn word_is_little_endian() {
    let stmts = vec![object_type("X"), label("X"), directive(".word", vec![number(1)])];
    assert_eq!(
        extract_data_objects(&stmts),
        Ok(vec![("X".to_string(), vec![0x01, 0x00, 0x00, 0x00])])
    );
}

#[test]
fn word_encodes_each_operand() {
    let stmts = vec![
        object_type("W"),
        label("W"),
        directive(".word", vec![number(0x12345678), number(-1), sym("elsewhere"), number(1 << 32)]),
    ];
    assert_eq!(
        extract_data_objects(&stmts),
        Ok(vec![(
            "W".to_string(),
            vec![0x78, 0x56, 0x34, 0x12, 0xff, 0xff, 0xff, 0xff, 0, 0, 0, 0, 0, 0, 0, 0]
        )])
    );
}

#[test]
fn announced_object_without_data() {
    let stmts = vec![object_type("Y")];
    assert_eq!(extract_data_objects(&stmts), Err(AsmError::MissingObjectData("Y".to_string())));
}

#[test]
fn first_missing_object_by_name() {
    let stmts = vec![object_type("b"), object_type("a"), object_type("c"), label("c"), ascii(b"1")];
    assert_eq!(extract_data_objects(&stmts), Err(AsmError::MissingObjectData("a".to_string())));
}

#[test]
fn second_word_is_refused() {
    let stmts = vec![
        object_type("X"),
        label("X"),
        directive(".word", vec![number(1)]),
        directive(".word", vec![number(2)]),
    ];
    assert_eq!(
        extract_data_objects(&stmts),
        Err(AsmError::DuplicateWordAssignment("X".to_string()))
    );
}

#[test]
fn word_after_ascii_is_refused() {
    let stmts = vec![object_type("X"), label("X"), ascii(b"A"), directive(".word", vec![number(2)])];
    assert_eq!(
        extract_data_objects(&stmts),
        Err(AsmError::DuplicateWordAssignment("X".to_string()))
    );
}

#[test]
fn redeclared_type_keeps_content() {
    let stmts = vec![object_type("X"), label("X"), ascii(b"AB"), object_type("X"), ascii(b"C")];
    assert_eq!(
        extract_data_objects(&stmts),
        Ok(vec![("X".to_string(), b"ABC".to_vec())])
    );
}

#[test]
fn data_outside_objects_is_ignored() {
    let stmts = vec![
        ascii(b"no label yet"),
        label("other"),
        ascii(b"Q"),
        directive(".word", vec![number(3)]),
        object_type("b"),
        object_type("a"),
        label("b"),
        directive(".asciz", vec![Argument::StringLiteral(b"hi\0".to_vec())]),
        instruction("nop", vec![]),
        directive(".size", vec![sym("b"), number(3)]),
        label("a"),
        directive(".word", vec![]),
    ];
    assert_eq!(
        extract_data_objects(&stmts),
        Ok(vec![("a".to_string(), vec![]), ("b".to_string(), b"hi\0".to_vec())])
    );
}

#[test]
fn no_objects() {
    assert_eq!(extract_data_objects(&[]), Ok(vec![]));
}

#[test]
fn unescape_simple_and_octal() {
    assert_eq!(unescape_string("\"a\\tb\""), Ok(vec![b'a', 0x09, b'b']));
    assert_eq!(unescape_string("\"\\101\""), Ok(vec![0x41]));
}

#[test]
fn unescape_hex_is_unsupported() {
    assert_eq!(unescape_string("\"\\x41\""), Err(AsmError::UnsupportedHexEscape));
}

#[test]
fn unescape_named_escapes() {
    assert_eq!(
        unescape_string("\"\\n\\r\\t\\b\\f\\\\\\\"\\q\""),
        Ok(vec![10, 13, 9, 8, 12, b'\\', b'"', b'q'])
    );
    assert_eq!(unescape_string("\"\""), Ok(vec![]));
    assert_eq!(unescape_string("\"\\000\\377\""), Ok(vec![0, 255]));
}

#[test]
fn unescape_malformed_octal() {
    assert_eq!(unescape_string("\"\\12\""), Err(AsmError::MalformedEscape));
    assert_eq!(unescape_string("\"\\18a\""), Err(AsmError::MalformedEscape));
    assert_eq!(unescape_string("\"\\9aa\""), Err(AsmError::MalformedEscape));
    assert_eq!(unescape_string("\"\\400\""), Err(AsmError::MalformedEscape));
    assert_eq!(unescape_string("\"ab\\\""), Err(AsmError::MalformedEscape));
}

#[test]
fn unescape_first_error_wins() {
    assert_eq!(unescape_string("\"\\x\\1\""), Err(AsmError::UnsupportedHexEscape));
    assert_eq!(unescape_string("\"\\1\\x\""), Err(AsmError::MalformedEscape));
}

#[test]
fn format_statements() {
    assert_eq!(label("main").to_string(), "main:\n");
    let d = directive("word", vec![number(-42), number(7)]);
    assert_eq!(d.to_string(), "  .word -42, 7\n");
    let i = instruction(
        "lw",
        vec![
            Argument::Register(Register(10)),
            Argument::RegOffset(Register(2), Constant::LoDataRef("x".to_string())),
        ],
    );
    assert_eq!(i.to_string(), "  lw x10, %lo(x)(x2)\n");
    assert_eq!(instruction("ret", vec![]).to_string(), "  ret \n");
}

#[test]
fn format_arguments_joined() {
    let args = vec![
        Argument::StringLiteral(b"hi\"".to_vec()),
        Argument::Difference("end".to_string(), "start".to_string()),
        Argument::Constant(Constant::HiDataRef("s".to_string())),
        number(i64::MIN),
        number(0),
    ];
    assert_eq!(
        format_arguments(&args),
        "\"hi\"\", end - start, %hi(s), -9223372036854775808, 0"
    );
    assert_eq!(format_arguments(&[]), "");
    assert_eq!(Register(31).to_string(), "x31");
    assert_eq!(Constant::Number(1234567).to_string(), "1234567");
    assert_eq!(sym("abc").to_string(), "abc");
}

#[test]
fn format_invalid_utf8_lossily() {
    assert_eq!(Argument::StringLiteral(vec![0x41, 0xff]).to_string(), "\"A\u{fffd}\"");
}

#[test]
fn quoted_text() {
    let mut s = String::from("x=");
    push_quoted(&mut s, "ab");
    assert_eq!(s, "x=\"ab\"");
}

#[test]
fn source_lines_trim_and_skip_blank() {
    let input = "  main:\n\n\t addi x1, x1, 1  \r\n   \n  ret\u{3000}";
    assert_eq!(source_lines(input), names(&["main:", "addi x1, x1, 1", "ret"]));
    assert_eq!(source_lines(""), Vec::<String>::new());
    assert_eq!(source_lines("\n\n"), Vec::<String>::new());
}

#[test]
fn parse_asm_keeps_order() {
    let input = "a: nop\n\n  b:\n";
    let lines = source_lines(input);
    assert_eq!(lines.len(), 2);
    let parsed = vec![
        Some(vec![label("a"), instruction("nop", vec![])]),
        Some(vec![label("b")]),
    ];
    assert_eq!(
        parse_asm(input, parsed),
        Ok(vec![label("a"), instruction("nop", vec![]), label("b")])
    );
}

#[test]
fn parse_asm_stops_at_first_rejected_line() {
    let input = "ok\n  bad one \nworse";
    let parsed = vec![Some(vec![label("ok")]), None, None];
    assert_eq!(parse_asm(input, parsed), Err(AsmError::SyntaxError("bad one".to_string())));
}

#[test]
fn type_processor_keeps_its_parts() {
    let a = "T".to_string();
    let mut vars = HashSet::new();
    vars.insert(&a);
    let p = TypeProcessor::new(7u32, &vars);
    assert_eq!(*p.driver(), 7);
    assert!(p.type_vars().contains(&a));
}
