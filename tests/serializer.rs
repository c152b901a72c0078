use go_kifu_viewer_lib::parser::parse_sgf_collection;
use go_kifu_viewer_lib::serializer::serialize_sgf_collection;
use go_kifu_viewer_lib::types::{
    validate_sgf, SgfCollection, SgfGame, SgfNode, SgfProperty, ValidationError,
};

fn node(props: Vec<(&str, Vec<&str>)>, children: Vec<SgfNode>) -> SgfNode {
    SgfNode {
        properties: props
            .into_iter()
            .map(|(i, vs)| SgfProperty {
                ident: i.to_string(),
                values: vs.into_iter().map(|v| v.to_string()).collect(),
            })
            .collect(),
        children,
    }
}

fn collection(roots: Vec<SgfNode>) -> SgfCollection {
    SgfCollection {
        games: roots.into_iter().map(|root| SgfGame { root }).collect(),
    }
}

#[test]
fn roundtrip_smoke() {
    let sgf = "(;GM[1]FF[4]SZ[19];B[pd](;W[dd])(;W[qp]))";
    let parsed1 = parse_sgf_collection(sgf).expect("parse #1");
    let out = serialize_sgf_collection(&parsed1);
    let parsed2 = parse_sgf_collection(&out).expect("parse #2");
    assert_eq!(parsed1, parsed2);
}

#[test]
fn serializes_chain_inline_and_variations_in_parens() {
    let c = collection(vec![node(
        vec![("GM", vec!["1"])],
        vec![node(
            vec![("B", vec!["pd"])],
            vec![
                node(vec![("W", vec!["dd"])], vec![]),
                node(vec![("W", vec!["qp"])], vec![node(vec![("B", vec!["aa"])], vec![])]),
            ],
        )],
    )]);
    assert_eq!(
        serialize_sgf_collection(&c),
        "(;GM[1];B[pd](;W[dd])(;W[qp];B[aa]))"
    );
}

#[test]
fn serializes_games_back_to_back() {
    let c = collection(vec![
        node(vec![("B", vec!["aa"])], vec![]),
        node(vec![], vec![]),
    ]);
    assert_eq!(serialize_sgf_collection(&c), "(;B[aa])(;)");
}

#[test]
fn escapes_backslash_and_bracket() {
    let value = "a]b\\c\nd";
    let c = collection(vec![node(vec![("C", vec![value]), ("AB", vec!["x", "y"])], vec![])]);
    let text = serialize_sgf_collection(&c);
    assert_eq!(text, "(;C[a\\]b\\\\c\nd]AB[x][y])");
    assert!(text.contains("\\]"));
    assert!(text.contains("\\\\"));
    let back = parse_sgf_collection(&text).unwrap();
    assert_eq!(back.games[0].root.properties[0].values[0], value);
    assert_eq!(back, c);
}

#[test]
fn round_trip_of_built_collection() {
    let c = collection(vec![
        node(
            vec![("GM", vec!["1"]), ("C", vec!["[x]"])],
            vec![node(
                vec![],
                vec![
                    node(vec![("B", vec!["pd"])], vec![node(vec![("W", vec!["dd"])], vec![])]),
                    node(vec![("B", vec!["qq"])], vec![]),
                    node(vec![("B", vec!["\\"])], vec![]),
                ],
            )],
        ),
        node(vec![("AB", vec!["aa", "bb"])], vec![]),
    ]);
    let text = serialize_sgf_collection(&c);
    let back = parse_sgf_collection(&text).unwrap();
    assert_eq!(back, c);
    assert_eq!(serialize_sgf_collection(&back), text);
}

#[test]
fn reserialization_is_idempotent() {
    let text = "  (;GM[1] FF[4]\n;B[pd](;W[dd]) (;W[qp]))";
    let once = serialize_sgf_collection(&parse_sgf_collection(text).unwrap());
    assert_eq!(once, "(;GM[1]FF[4];B[pd](;W[dd])(;W[qp]))");
    let twice = serialize_sgf_collection(&parse_sgf_collection(&once).unwrap());
    assert_eq!(twice, once);
}

#[test]
fn validation_requires_a_game() {
    assert_eq!(validate_sgf(&collection(vec![])), Err(ValidationError::NoGames));
    assert_eq!(validate_sgf(&collection(vec![node(vec![], vec![])])), Ok(()));
}
