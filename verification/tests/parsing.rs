use dbe_backend::editor_id::EditorId;
use dbe_backend::lexer::TokenKind;
use dbe_backend::parsing::{
    contains_malformed_id, escape_const_string, normalize_id, parse_full_id, reads_malformed_id, unescape_const_string,
    EDataType, ETypeConst, Expected, IdParseError, ParsedId,
};

fn simple(t: EDataType) -> ParsedId {
    ParsedId::Simple(t)
}

#[test]
fn parses_primitive_types() {
    assert_eq!(parse_full_id("number"), Ok(simple(EDataType::Number)));
    assert_eq!(parse_full_id("string"), Ok(simple(EDataType::String)));
    assert_eq!(parse_full_id(" boolean "), Ok(simple(EDataType::Boolean)));
    assert_eq!(parse_full_id("unknown"), Ok(simple(EDataType::Unknown)));
    assert_eq!(parse_full_id("null"), Ok(simple(EDataType::Const { value: ETypeConst::Null })));
}

#[test]
fn parses_constants() {
    assert_eq!(parse_full_id("true"), Ok(simple(EDataType::Const { value: ETypeConst::Bool(true) })));
    assert_eq!(parse_full_id("-1.5e3"), Ok(simple(EDataType::Const { value: ETypeConst::Number("-1.5e3".to_string()) })));
    assert_eq!(
        parse_full_id("'it''s'"),
        Ok(simple(EDataType::Const { value: ETypeConst::String("it's".to_string()) }))
    );
}

#[test]
fn parses_object_ids() {
    assert_eq!(
        parse_full_id("dbe:item/sword"),
        Ok(simple(EDataType::Object { ident: EditorId("dbe:item/sword".to_string()) }))
    );
}

#[test]
fn parses_lists_and_maps() {
    assert_eq!(parse_full_id("List<Item=number>"), Ok(ParsedId::List(Box::new(simple(EDataType::Number)))));
    assert_eq!(
        parse_full_id("Map< Key = string , Item = List<Item=dbe:a> >"),
        Ok(ParsedId::MapOf {
            key: Box::new(simple(EDataType::String)),
            value: Box::new(ParsedId::List(Box::new(simple(EDataType::Object {
                ident: EditorId("dbe:a".to_string()),
            })))),
        })
    );
}

#[test]
fn reports_parse_errors() {
    assert_eq!(parse_full_id(""), Err(IdParseError::UnexpectedEnd));
    assert_eq!(
        parse_full_id("number number"),
        Err(IdParseError::UnexpectedToken("number".to_string(), Expected::EndOfInput))
    );
    assert_eq!(parse_full_id("="), Err(IdParseError::UnexpectedToken("=".to_string(), Expected::TypeOrId)));
    assert_eq!(
        parse_full_id("List<Key=number>"),
        Err(IdParseError::UnexpectedToken("Key".to_string(), Expected::Token(TokenKind::Item)))
    );
    assert_eq!(parse_full_id("List<Item=number"), Err(IdParseError::UnexpectedEnd));
    assert_eq!(parse_full_id("#"), Err(IdParseError::BadToken("#".to_string())));
}

#[test]
fn generic_arguments_after_an_id_are_refused() {
    assert_eq!(
        parse_full_id("dbe:item<Item=number>"),
        Err(IdParseError::UnexpectedToken("<".to_string(), Expected::AlphanumericIdentifier))
    );
    assert_eq!(
        parse_full_id("dbe:item number"),
        Err(IdParseError::UnexpectedToken("number".to_string(), Expected::GenericArguments))
    );
}

#[test]
fn malformed_ids_are_detected() {
    assert!(reads_malformed_id("Dbe:item"));
    assert!(!reads_malformed_id("dbe:item"));
    assert!(contains_malformed_id("List<Item=Dbe:item>"));
    assert!(!contains_malformed_id("List<Item=dbe:item>"));
}

#[test]
fn normalizes_whitespace() {
    assert_eq!(normalize_id("List < Item = number >"), "List<Item=number>");
    assert_eq!(normalize_id("  dbe:a  "), "dbe:a");
    assert_eq!(normalize_id(""), "");
}

#[test]
fn escapes_and_unescapes_strings() {
    assert_eq!(escape_const_string("it's"), "it''s");
    assert_eq!(escape_const_string("plain"), "plain");
    assert_eq!(unescape_const_string("'it''s'"), "it's");
    assert_eq!(unescape_const_string("''"), "");
    let s = "a'b''c";
    assert_eq!(unescape_const_string(&format!("'{}'", escape_const_string(s))), s);
}
