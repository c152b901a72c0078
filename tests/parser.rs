use go_kifu_viewer_lib::grammar::{InvalidReason, ParseError};
use go_kifu_viewer_lib::parser::parse_sgf_collection;
use go_kifu_viewer_lib::types::{SgfNode, SgfProperty};

fn prop(ident: &str, values: &[&str]) -> SgfProperty {
    SgfProperty {
        ident: ident.to_string(),
        values: values.iter().map(|v| v.to_string()).collect(),
    }
}

#[test]
fn parse_basic_game() {
    let sgf = "(;GM[1]FF[4]SZ[19];B[pd];W[dd])";
    let parsed = parse_sgf_collection(sgf).expect("parse should succeed");
    assert_eq!(parsed.games.len(), 1);
    assert_eq!(parsed.games[0].root.properties[0].ident, "GM");
    assert_eq!(parsed.games[0].root.children.len(), 1);
}

#[test]
fn parse_variation() {
    let sgf = "(;B[pd](;W[dd])(;W[qp]))";
    let parsed = parse_sgf_collection(sgf).expect("parse should succeed");
    let root = &parsed.games[0].root;
    assert_eq!(root.properties[0].ident, "B");
    assert_eq!(root.children.len(), 2);
}

#[test]
fn chain_is_built_from_node_sequence() {
    let parsed = parse_sgf_collection("(;GM[1]FF[4]SZ[19];B[pd];W[dd])").unwrap();
    assert_eq!(parsed.games.len(), 1);
    let root = &parsed.games[0].root;
    assert_eq!(
        root.properties,
        vec![prop("GM", &["1"]), prop("FF", &["4"]), prop("SZ", &["19"])]
    );
    assert_eq!(root.children.len(), 1);
    let b = &root.children[0];
    assert_eq!(b.properties, vec![prop("B", &["pd"])]);
    assert_eq!(b.children.len(), 1);
    let w = &b.children[0];
    assert_eq!(w.properties, vec![prop("W", &["dd"])]);
    assert!(w.children.is_empty());
}

#[test]
fn variations_become_children_of_last_node() {
    let parsed = parse_sgf_collection("(;B[pd](;W[dd])(;W[qp]))").unwrap();
    assert_eq!(parsed.games.len(), 1);
    let root = &parsed.games[0].root;
    assert_eq!(root.properties, vec![prop("B", &["pd"])]);
    assert_eq!(root.children.len(), 2);
    assert_eq!(root.children[0].properties, vec![prop("W", &["dd"])]);
    assert_eq!(root.children[1].properties, vec![prop("W", &["qp"])]);
    assert!(root.children[0].children.is_empty());
    assert!(root.children[1].children.is_empty());
}

#[test]
fn variations_hang_below_end_of_chain() {
    let parsed = parse_sgf_collection("(;A[1];B[2](;C[3])(;D[4];E[5]))").unwrap();
    let root = &parsed.games[0].root;
    assert_eq!(root.children.len(), 1);
    let b = &root.children[0];
    assert_eq!(b.properties, vec![prop("B", &["2"])]);
    assert_eq!(b.children.len(), 2);
    assert_eq!(b.children[1].children[0].properties, vec![prop("E", &["5"])]);
}

#[test]
fn escaped_bracket_in_value() {
    let parsed = parse_sgf_collection("(;C[a\\]b])").unwrap();
    assert_eq!(parsed.games[0].root.properties, vec![prop("C", &["a]b"])]);
}

#[test]
fn escaped_backslash_and_raw_newline_in_value() {
    let parsed = parse_sgf_collection("(;C[x\\\\y\nz])").unwrap();
    assert_eq!(parsed.games[0].root.properties, vec![prop("C", &["x\\y\nz"])]);
}

#[test]
fn list_valued_property() {
    let parsed = parse_sgf_collection("(;AB[aa][bb] [cc])").unwrap();
    assert_eq!(parsed.games[0].root.properties, vec![prop("AB", &["aa", "bb", "cc"])]);
}

#[test]
fn empty_node_is_allowed() {
    let parsed = parse_sgf_collection("(;)").unwrap();
    assert_eq!(parsed.games[0].root, SgfNode::empty());
}

#[test]
fn whitespace_between_tokens_is_ignored() {
    let parsed = parse_sgf_collection("  ( ; B [pd] \n ; W[dd] )\t").unwrap();
    let root = &parsed.games[0].root;
    assert_eq!(root.properties, vec![prop("B", &["pd"])]);
    assert_eq!(root.children[0].properties, vec![prop("W", &["dd"])]);
}

#[test]
fn several_games_in_document_order() {
    let parsed = parse_sgf_collection("(;B[aa])\n(;W[bb])").unwrap();
    assert_eq!(parsed.games.len(), 2);
    assert_eq!(parsed.games[0].root.properties, vec![prop("B", &["aa"])]);
    assert_eq!(parsed.games[1].root.properties, vec![prop("W", &["bb"])]);
}

#[test]
fn empty_text_has_no_game_trees() {
    assert_eq!(
        parse_sgf_collection(""),
        Err(ParseError::Invalid(InvalidReason::NoGameTrees))
    );
    assert_eq!(
        parse_sgf_collection(" \n\t "),
        Err(ParseError::Invalid(InvalidReason::NoGameTrees))
    );
}

#[test]
fn empty_parentheses_have_no_node_sequence() {
    assert_eq!(
        parse_sgf_collection("()"),
        Err(ParseError::Invalid(InvalidReason::EmptySequence))
    );
}

#[test]
fn property_without_value_is_rejected() {
    assert_eq!(
        parse_sgf_collection("(;B)"),
        Err(ParseError::Invalid(InvalidReason::EmptyValues))
    );
}

#[test]
fn unterminated_input_is_end_of_input() {
    assert_eq!(parse_sgf_collection("(;B[pd]"), Err(ParseError::Eof));
    assert_eq!(parse_sgf_collection("(;C[abc"), Err(ParseError::Eof));
    assert_eq!(parse_sgf_collection("(;C[abc\\"), Err(ParseError::Eof));
}

#[test]
fn missing_open_paren_is_reported_with_position() {
    assert_eq!(
        parse_sgf_collection("  x"),
        Err(ParseError::Expected { expected: '(', at: 2 })
    );
}

#[test]
fn stray_bracket_and_missing_close_paren_are_reported_with_position() {
    assert_eq!(
        parse_sgf_collection("(;B[pd]]"),
        Err(ParseError::ExpectedIdent { at: 7 })
    );
    assert_eq!(
        parse_sgf_collection("(;B[pd](;W[dd]);"),
        Err(ParseError::Expected { expected: ')', at: 15 })
    );
}

#[test]
fn lower_case_identifier_is_rejected() {
    assert_eq!(
        parse_sgf_collection("(;b[pd])"),
        Err(ParseError::ExpectedIdent { at: 2 })
    );
}

#[test]
fn positions_count_characters_not_bytes() {
    assert_eq!(
        parse_sgf_collection("(;C[\u{e9}\u{e9}])x"),
        Err(ParseError::Expected { expected: '(', at: 8 })
    );
}
