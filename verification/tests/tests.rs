use bgm_wiki_parser::parser::{data, info, item, wiki, ParseError};
use bgm_wiki_parser::{Data, Item, Wiki};

#[test]
fn single() {
    let (_, res) = item("[e]").unwrap();
    assert_eq!(res, Item::Single("e".to_string()));
}

#[test]
fn named() {
    let (_, res) = item("[a|b]").unwrap();
    assert_eq!(res, Item::Named("a".to_string(), "b".to_string()));
}

#[test]
fn none() {
    let (_, res) = item("[]").unwrap();
    assert_eq!(res, Item::Empty);
}

#[test]
fn scalar() {
    let (_, res) = data("any").unwrap();
    assert_eq!(res, Data::Scalar("any".to_string()));
}

#[test]
fn array() {
    let (_, res) = data("{\n[a]\n[b]\n}").unwrap();
    assert_eq!(
        res,
        Data::Array(vec![
            Item::Single("a".to_string()),
            Item::Single("b".to_string())
        ])
    );
}

#[test]
fn empty() {
    let (_, res) = wiki("").unwrap();
    assert_eq!(res, Wiki::default());
    let (_, res) = wiki("{{Infobox\n}}").unwrap();
    assert_eq!(res, Wiki::default());
}

#[test]
fn single_trims_interior() {
    let (_, res) = item("[  e spaced  ]").unwrap();
    assert_eq!(res, Item::Single("e spaced".to_string()));
}

#[test]
fn named_trims_both_sides() {
    let (_, res) = item("[ a | b ]").unwrap();
    assert_eq!(res, Item::Named("a".to_string(), "b".to_string()));
}

#[test]
fn named_splits_at_first_separator() {
    let (_, res) = item("[a|b|c]").unwrap();
    assert_eq!(res, Item::Named("a".to_string(), "b|c".to_string()));
}

#[test]
fn item_rest_is_returned() {
    let (rest, res) = item("[e]tail").unwrap();
    assert_eq!(res, Item::Single("e".to_string()));
    assert_eq!(rest, "tail");
}

#[test]
fn item_without_close_is_malformed() {
    assert_eq!(item("[abc"), Err(ParseError::MalformedItem));
}

#[test]
fn item_without_open_is_malformed() {
    assert_eq!(item("abc]"), Err(ParseError::MalformedItem));
}

#[test]
fn item_close_prefers_newline_adjacent_bracket() {
    let (_, res) = item("[x]y]\nrest").unwrap();
    assert_eq!(res, Item::Single("x]y".to_string()));
}

#[test]
fn scalar_keeps_line_spacing() {
    let (rest, res) = data("  padded  \nnext").unwrap();
    assert_eq!(res, Data::Scalar("  padded  ".to_string()));
    assert_eq!(rest, "\nnext");
}

#[test]
fn scalar_stops_at_carriage_return_newline() {
    let (rest, res) = data("line\r\nnext").unwrap();
    assert_eq!(res, Data::Scalar("line".to_string()));
    assert_eq!(rest, "\r\nnext");
}

#[test]
fn array_single_line() {
    let (_, res) = data("{ [a] [b] }").unwrap();
    assert_eq!(
        res,
        Data::Array(vec![
            Item::Single("a".to_string()),
            Item::Single("b".to_string())
        ])
    );
}

#[test]
fn array_tab_layout() {
    let (_, res) = data("{\t[a]\t\t[b] }").unwrap();
    assert_eq!(
        res,
        Data::Array(vec![
            Item::Single("a".to_string()),
            Item::Single("b".to_string())
        ])
    );
}

#[test]
fn array_newline_tiebreak_merges_items() {
    // The closing-bracket heuristic prefers `]` followed by a line break,
    // so a layout whose only such bracket is the last one folds the two
    // tokens into a single item.
    let (_, res) = data("{ [a] [b]\n}").unwrap();
    assert_eq!(res, Data::Array(vec![Item::Single("a] [b".to_string())]));
}

#[test]
fn array_mixed_item_kinds() {
    let (_, res) = data("{\n[a]\n[b|c]\n[]\n}").unwrap();
    assert_eq!(
        res,
        Data::Array(vec![
            Item::Single("a".to_string()),
            Item::Named("b".to_string(), "c".to_string()),
            Item::Empty,
        ])
    );
}

#[test]
fn array_without_close_is_unterminated() {
    assert_eq!(data("{[a]"), Err(ParseError::UnterminatedArray));
}

#[test]
fn array_with_malformed_item_fails() {
    assert_eq!(data("{[a}"), Err(ParseError::MalformedItem));
}

#[test]
fn info_parses_key_and_scalar() {
    let (_, (key, value)) = info("|name = value text\n").unwrap();
    assert_eq!(key, "name".to_string());
    assert_eq!(value, Data::Scalar("value text".to_string()));
}

#[test]
fn info_empty_value_is_empty_scalar() {
    let (_, (key, value)) = info("|key=").unwrap();
    assert_eq!(key, "key".to_string());
    assert_eq!(value, Data::Scalar("".to_string()));
}

#[test]
fn info_without_key_is_missing_key() {
    assert_eq!(info("|=v"), Err(ParseError::MissingKey));
    assert_eq!(info("no marker"), Err(ParseError::MissingKey));
}

#[test]
fn wiki_kind_is_trimmed() {
    let (_, res) = wiki("{{Infobox  Anime \n|a=b\n}}").unwrap();
    assert_eq!(res.kind, "Anime".to_string());
    assert_eq!(res.get("a"), Some(&Data::Scalar("b".to_string())));
}

#[test]
fn wiki_later_key_wins() {
    let (_, res) = wiki("{{Infobox\n|a=1\n|a=2\n}}").unwrap();
    assert_eq!(res.data.len(), 1);
    assert_eq!(res.get("a"), Some(&Data::Scalar("2".to_string())));
}

#[test]
fn wiki_empty_value_field() {
    let (_, res) = wiki("{{Infobox\n|key=\n}}").unwrap();
    assert_eq!(res.get("key"), Some(&Data::Scalar("".to_string())));
}

#[test]
fn wiki_crlf_terminators() {
    let (_, res) = wiki("{{Infobox t\r\n|k=v\r\n}}").unwrap();
    assert_eq!(res.kind, "t".to_string());
    assert_eq!(res.get("k"), Some(&Data::Scalar("v".to_string())));
}

#[test]
fn wiki_trailing_input_is_left() {
    let (rest, res) = wiki("{{Infobox\n|a=b\n}}after").unwrap();
    assert_eq!(rest, "after");
    assert_eq!(res.get("a"), Some(&Data::Scalar("b".to_string())));
}

#[test]
fn wiki_array_field() {
    let (_, res) = wiki("{{Infobox\n|songs={\n[a]\n[b]\n}\n}}").unwrap();
    let songs = res.get("songs").unwrap();
    assert!(songs.is_array());
    assert_eq!(
        songs,
        &Data::Array(vec![
            Item::Single("a".to_string()),
            Item::Single("b".to_string())
        ])
    );
}

#[test]
fn wiki_without_prologue_fails() {
    assert_eq!(wiki("{{Template\n}}"), Err(ParseError::NotAnInfobox));
    assert_eq!(wiki("plain text"), Err(ParseError::NotAnInfobox));
}

#[test]
fn wiki_without_close_fails() {
    assert_eq!(wiki("{{Infobox abc"), Err(ParseError::UnterminatedEnvelope));
}

#[test]
fn wiki_missing_key_fails() {
    assert_eq!(wiki("{{Infobox\n|=v\n}}"), Err(ParseError::MissingKey));
}

#[test]
fn value_accessor() {
    assert_eq!(Item::Single("x".to_string()).value(), Some("x"));
    assert_eq!(
        Item::Named("k".to_string(), "v".to_string()).value(),
        Some("v")
    );
    assert_eq!(Item::Empty.value(), None);
}

#[test]
fn kind_predicates() {
    let a = Data::Array(vec![]);
    let s = Data::Scalar("x".to_string());
    assert!(a.is_array());
    assert!(!a.is_scalar());
    assert!(s.is_scalar());
    assert!(!s.is_array());
}

#[test]
fn new_and_get() {
    let w = Wiki::new(
        "Kind".to_string(),
        vec![
            ("a".to_string(), Data::Scalar("1".to_string())),
            ("b".to_string(), Data::Scalar("2".to_string())),
        ],
    );
    assert_eq!(w.kind, "Kind".to_string());
    assert_eq!(w.get("a"), Some(&Data::Scalar("1".to_string())));
    assert_eq!(w.get("b"), Some(&Data::Scalar("2".to_string())));
    assert_eq!(w.get("c"), None);
}

#[test]
fn item_roundtrip_reconstruction() {
    // Re-parsing the textual reconstruction of an unambiguous item yields
    // the same item.
    let cases = vec![
        Item::Single("name".to_string()),
        Item::Named("key".to_string(), "value".to_string()),
        Item::Empty,
    ];
    for it in cases {
        let text = match &it {
            Item::Single(v) => format!("[{}]", v),
            Item::Named(n, v) => format!("[{}|{}]", n, v),
            Item::Empty => "[]".to_string(),
        };
        let (rest, reparsed) = item(&text).unwrap();
        assert_eq!(rest, "");
        assert_eq!(reparsed, it);
    }
}

#[test]
fn scalar_roundtrip_reconstruction() {
    let (rest, res) = data("some scalar text").unwrap();
    assert_eq!(rest, "");
    let reconstructed = match &res {
        Data::Scalar(s) => s.clone(),
        Data::Array(_) => unreachable!(),
    };
    let (_, again) = data(&reconstructed).unwrap();
    assert_eq!(again, res);
}

#[test]
fn value_mut_rewrites_payload() {
    let mut it = Item::Named("k".to_string(), "v".to_string());
    if let Some(v) = it.value_mut() {
        *v = "changed".to_string();
    }
    assert_eq!(it, Item::Named("k".to_string(), "changed".to_string()));
    let mut single = Item::Single("x".to_string());
    if let Some(v) = single.value_mut() {
        *v = "y".to_string();
    }
    assert_eq!(single, Item::Single("y".to_string()));
    assert_eq!(Item::Empty.value_mut(), None);
}

#[test]
fn get_mut_replaces_value() {
    let (_, mut w) = wiki("{{Infobox\n|a=1\n|b=2\n}}").unwrap();
    if let Some(d) = w.get_mut("a") {
        *d = Data::Scalar("new".to_string());
    }
    assert_eq!(w.get("a"), Some(&Data::Scalar("new".to_string())));
    assert_eq!(w.get("b"), Some(&Data::Scalar("2".to_string())));
    assert_eq!(w.get_mut("missing"), None);
}
