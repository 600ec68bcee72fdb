use squiller::codegen::python::PythonCodeGenerator;
use squiller::codegen::{Block, CodeGenerator};

#[test]
fn block_formats_nested_lines() {
    let mut inner = Block::new();
    inner.push_line_str("b");
    inner.push_line("c".to_string());
    let mut deeper = Block::new();
    deeper.push_line_str("d");
    inner.push_block(deeper.indent());

    let mut outer = Block::new();
    outer.push_line_str("a {");
    outer.push_block(inner.indent());
    outer.push_line_str("}");
    assert_eq!(outer.format(), "a {\n    b\n    c\n        d\n}\n");
}

#[test]
fn block_folds_stacks_and_wraps_lines() {
    let mut first = Block::new();
    first.push_line_str("1");
    let mut second = Block::new();
    second.push_line_str("2");
    second.push_line_str("3");
    first.push_block(second);
    match &first {
        Block::Stack(blocks) => assert_eq!(blocks.len(), 3),
        _ => panic!("Expected a stack."),
    }
    assert_eq!(first.format(), "1\n2\n3\n");

    let mut line = Block::Line("x".to_string());
    line.push_block(Block::Line("y".to_string()));
    assert_eq!(line.format(), "x\ny\n");
    assert_eq!(Block::new().format(), "");
    assert_eq!(line.indent().indent().format(), "        x\n        y\n");
}

#[test]
fn generator_keeps_track_of_the_indent() {
    let mut generator = CodeGenerator::new();
    generator.write("fn f() {\n");
    generator.open_scope();
    generator.write_indent();
    generator.write("g();\n");
    generator.open_scope();
    assert_eq!(generator.indent(), 8);
    generator.close_scope();
    generator.close_scope();
    generator.write_indent();
    generator.write("}\n");
    assert_eq!(generator.into_text(), "fn f() {\n    g();\n}\n");
}

#[test]
fn python_generator_indents_by_four() {
    let mut generator = PythonCodeGenerator::new();
    generator.write("def f():\n");
    generator.open_scope();
    generator.write_indent();
    generator.write("g(\n");
    generator.increase_indent();
    generator.write_indent();
    generator.write("1,\n");
    generator.decrease_indent();
    generator.write_indent();
    generator.write(")\n");
    generator.close_scope();
    generator.write_indent();
    generator.write("f()\n");
    assert_eq!(generator.into_text(), "def f():\n    g(\n        1,\n    )\nf()\n");
}

#[test]
fn block_formats_an_indented_block_below_a_line() {
    let mut outer = Block::new();
    outer.push_line_str("a");
    let mut inner = Block::new();
    inner.push_line_str("b");
    outer.push_block(inner.indent());
    assert_eq!(outer.format(), "a\n    b\n");
}

#[test]
fn push_block_keeps_a_stack_whole_below_a_line() {
    let mut stack = Block::new();
    stack.push_line_str("y");
    stack.push_line_str("z");
    let mut line = Block::Line("x".to_string());
    line.push_block(stack);
    match &line {
        Block::Stack(blocks) => {
            assert_eq!(blocks.len(), 2);
            assert!(matches!(&blocks[0], Block::Line(text) if text == "x"));
            assert!(matches!(&blocks[1], Block::Stack(inner) if inner.len() == 2));
        }
        _ => panic!("Expected a stack."),
    }
    assert_eq!(line.format(), "x\ny\nz\n");

    let mut stack = Block::new();
    stack.push_block(Block::new().indent());
    match &stack {
        Block::Stack(blocks) => assert!(matches!(&blocks[0], Block::Indent(_))),
        _ => panic!("Expected a stack."),
    }
}
