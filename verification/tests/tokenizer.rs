//! Tokenizer behaviour on spanned input.

use xrvlan::parse::tokenize_spanned;

#[test]
fn test_tokenize_spanned_basic() {
    let input = r#"interface Foo
  description test
  mtu 9000
"#;
    let nodes = tokenize_spanned(input);
    assert_eq!(nodes.len(), 1);

    if let Some(block) = nodes[0].as_block() {
        assert_eq!(block.name, "interface Foo");
        assert_eq!(block.span.line.get(), 1);
        assert_eq!(block.stmts.len(), 2);

        if let Some(stmt) = block.stmts[0].as_stmt() {
            assert_eq!(stmt.stmt, "description test");
            assert_eq!(stmt.span.line.get(), 2);
        }

        if let Some(stmt) = block.stmts[1].as_stmt() {
            assert_eq!(stmt.stmt, "mtu 9000");
            assert_eq!(stmt.span.line.get(), 3);
        }
    } else {
        panic!("Expected block");
    }
}

#[test]
fn test_tokenize_spanned_multiple_blocks() {
    let input = r#"vlan database
  vlan 100 name test

interface Foo
  description bar
"#;
    let nodes = tokenize_spanned(input);
    assert_eq!(nodes.len(), 2);

    if let Some(block) = nodes[0].as_block() {
        assert_eq!(block.name, "vlan database");
        assert_eq!(block.span.line.get(), 1);
    }

    if let Some(block) = nodes[1].as_block() {
        assert_eq!(block.name, "interface Foo");
        assert_eq!(block.span.line.get(), 4);
    }
}

#[test]
fn comments_and_blanks_are_dropped() {
    let input = "! header comment\ninterface Foo\n  mtu 9000\n\nstatement\n";
    let nodes = xrvlan::parse::tokenize(input);
    assert_eq!(nodes.len(), 2);
    let block = nodes[0].as_block().expect("block");
    assert_eq!(block.name, "interface Foo");
    assert_eq!(block.stmts.len(), 1);
    let stmt = nodes[1].as_stmt().expect("stmt");
    assert_eq!(stmt.stmt(), "statement");
}

#[test]
fn end_set_is_absorbed_into_the_closing_level() {
    let input = "route-policy PASS\n  pass\nend-policy\nstatement\n";
    let nodes = xrvlan::parse::tokenize(input);
    assert_eq!(nodes.len(), 2);
    let block = nodes[0].as_block().expect("block");
    assert_eq!(block.name, "route-policy PASS");
    assert_eq!(block.stmts.len(), 2);
    assert_eq!(block.stmts[0].as_stmt().expect("stmt").stmt(), "pass");
    assert_eq!(block.stmts[1].as_stmt().expect("stmt").stmt(), "end-policy");
    assert_eq!(nodes[1].as_stmt().expect("stmt").stmt(), "statement");
}
