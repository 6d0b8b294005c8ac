use bnf_transpiler::ast::ASTNode;
use bnf_transpiler::text::{
    appended, blank, decimal_chars, expand, from_chars, ident_char, ident_start, inline_space,
    space, starts_with_at, substring, to_chars,
};

#[test]
fn new_node_is_empty() {
    let n = ASTNode::new("a");
    assert_eq!(n.name, "a");
    assert_eq!(n.value, "");
    assert!(n.children.is_empty());
    let n = ASTNode::with_value("a", "v");
    assert_eq!(n.name, "a");
    assert_eq!(n.value, "v");
    assert!(n.children.is_empty());
}

#[test]
fn children_are_grouped_by_name_in_order() {
    let mut n = ASTNode::new("p");
    n.add_child(ASTNode::with_value("a", "1"));
    n.add_child(ASTNode::with_value("b", "2"));
    n.add_child(ASTNode::with_value("a", "3"));
    assert_eq!(n.children.len(), 2);
    assert_eq!(n.children[0].name, "a");
    assert_eq!(n.children[1].name, "b");
    let a: Vec<&str> = n.get_children("a").iter().map(|c| c.value.as_str()).collect();
    assert_eq!(a, vec!["1", "3"]);
    assert_eq!(n.get_child("a").unwrap().value, "1");
    assert_eq!(n.get_child("b").unwrap().value, "2");
    assert!(n.get_child("c").is_none());
    assert!(n.get_children("c").is_empty());
}

#[test]
fn taking_children_appends_them_by_name() {
    let mut n = ASTNode::new("p");
    n.add_child(ASTNode::with_value("a", "1"));
    let mut other = ASTNode::new("_group");
    other.add_child(ASTNode::with_value("b", "2"));
    other.add_child(ASTNode::with_value("a", "3"));
    other.add_child(ASTNode::with_value("b", "4"));
    n.take_children_of(other);
    let a: Vec<&str> = n.get_children("a").iter().map(|c| c.value.as_str()).collect();
    let b: Vec<&str> = n.get_children("b").iter().map(|c| c.value.as_str()).collect();
    assert_eq!(a, vec!["1", "3"]);
    assert_eq!(b, vec!["2", "4"]);
    assert_eq!(n.name, "p");
}

#[test]
fn internal_names_start_with_an_underscore() {
    assert!(ASTNode::new("_repeat").is_internal());
    assert!(ASTNode::new("_").is_internal());
    assert!(!ASTNode::new("a_b").is_internal());
    assert!(!ASTNode::new("").is_internal());
}

#[test]
fn characters_round_trip() {
    let v = to_chars("héllo");
    assert_eq!(v, vec!['h', 'é', 'l', 'l', 'o']);
    assert_eq!(from_chars(&v), "héllo");
    assert_eq!(substring(&v, 1, 3), "él");
    assert_eq!(substring(&v, 2, 2), "");
}

#[test]
fn text_comparison() {
    let text = to_chars("hello world");
    assert!(starts_with_at(&text, 6, &to_chars("world")));
    assert!(starts_with_at(&text, 11, &to_chars("")));
    assert!(!starts_with_at(&text, 6, &to_chars("worlds")));
    assert!(!starts_with_at(&text, 5, &to_chars("world")));
}

#[test]
fn character_classes() {
    for c in [' ', '\t', '\r'] {
        assert!(inline_space(c));
    }
    assert!(!inline_space('\n'));
    for c in [' ', '\t', '\n', '\r', '\u{0B}', '\u{0C}', '\u{85}', '\u{A0}', '\u{2003}', '\u{3000}']
    {
        assert!(space(c), "{:?}", c);
        assert!(c.is_whitespace());
    }
    for c in ['a', '_', '\u{200B}', '0'] {
        assert!(!space(c));
    }
    assert!(ident_start('a') && ident_start('Z') && ident_start('_'));
    assert!(!ident_start('0') && !ident_start('é') && !ident_start('-'));
    assert!(ident_char('0') && ident_char('9') && ident_char('q'));
    assert!(!ident_char(' ') && !ident_char('é'));
}

#[test]
fn space_agrees_with_the_standard_library() {
    for n in 0..0x3100u32 {
        if let Some(c) = char::from_u32(n) {
            assert_eq!(space(c), c.is_whitespace(), "{:?}", c);
        }
    }
}

#[test]
fn blank_text() {
    assert!(blank(&to_chars("")));
    assert!(blank(&to_chars(" \t\n")));
    assert!(!blank(&to_chars(" x ")));
}

#[test]
fn escapes() {
    assert_eq!(expand("a\\nb"), "a\nb");
    assert_eq!(expand("\\t\\r\\n"), "\t\r\n");
    assert_eq!(expand("\\\\n"), "\\\n");
    assert_eq!(expand("\\x\\"), "\\x\\");
    assert_eq!(expand(""), "");
    // the same as replacing the three escapes one after the other
    for s in ["\\\\nt", "\\n\\t\\r", "a\\\\b\\nn", "\\\\\\n"] {
        let expected = s.replace("\\n", "\n").replace("\\t", "\t").replace("\\r", "\r");
        assert_eq!(expand(s), expected);
    }
}

#[test]
fn concatenation_and_decimals() {
    assert_eq!(appended(String::from("ab"), &String::from("cd")), "abcd");
    assert_eq!(from_chars(&decimal_chars(0)), "0");
    assert_eq!(from_chars(&decimal_chars(7)), "7");
    assert_eq!(from_chars(&decimal_chars(10)), "10");
    assert_eq!(from_chars(&decimal_chars(90210)), "90210");
    assert_eq!(from_chars(&decimal_chars(usize::MAX)), usize::MAX.to_string());
}

#[test]
fn copies_are_deep_and_equal() {
    let mut n = ASTNode::new("p");
    n.add_child(ASTNode::with_value("a", "1"));
    let mut inner = ASTNode::new("b");
    inner.add_child(ASTNode::with_value("c", "2"));
    n.add_child(inner);
    let mut copy = n.clone();
    assert_eq!(format!("{:?}", copy), format!("{:?}", n));
    copy.add_child(ASTNode::with_value("a", "3"));
    assert_eq!(n.get_children("a").len(), 1);
    assert_eq!(copy.get_children("a").len(), 2);
}
