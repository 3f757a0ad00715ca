use isml_lsp::reference::{at_cursor, ends_with_call_given, Reference};

fn column_of(line: &str, needle: &str) -> usize {
    line.find(needle).unwrap() + 1
}

#[test]
fn finds_a_template_attribute() {
    let line = r#"    <isinclude template="account/dashboard" />"#;
    assert_eq!(
        at_cursor(line, column_of(line, "account/dashboard")),
        Some(Reference::Template("account/dashboard".into()))
    );
}

#[test]
fn finds_a_require_path() {
    let line = r#"var helper = require('*/cartridge/scripts/helpers/brandHelper');"#;
    assert_eq!(
        at_cursor(line, column_of(line, "*/cartridge")),
        Some(Reference::Module(
            "*/cartridge/scripts/helpers/brandHelper".into()
        ))
    );
}

#[test]
fn finds_a_require_inside_an_isml_expression() {
    let line =
        r#"<isset name="a" value="${require('~/cartridge/scripts/x').y}" scope="page"/>"#;
    assert_eq!(
        at_cursor(line, column_of(line, "~/cartridge")),
        Some(Reference::Module("~/cartridge/scripts/x".into()))
    );
}

#[test]
fn finds_a_resource_key_from_either_argument() {
    let line = r#"<isprint value="${Resource.msg('label.x.y', 'account', null)}"/>"#;
    let expected = Reference::Resource {
        key: "label.x.y".into(),
        bundle: "account".into(),
    };
    assert_eq!(
        at_cursor(line, column_of(line, "label.x.y")),
        Some(expected)
    );
    assert!(matches!(
        at_cursor(line, column_of(line, "account")),
        Some(Reference::Resource { .. })
    ));
}

#[test]
fn ignores_an_unrelated_string() {
    let line = r#"<div class="product-tile"></div>"#;
    assert_eq!(at_cursor(line, column_of(line, "product-tile")), None);
}

#[test]
fn ignores_a_lookalike_identifier_before_the_parenthesis() {
    let line = r#"var x = myrequire('./a');"#;
    assert_eq!(at_cursor(line, column_of(line, "./a")), None);
}

#[test]
fn ignores_a_dollar_identifier_before_the_parenthesis() {
    let line = r#"var x = $require('./a');"#;
    assert_eq!(at_cursor(line, column_of(line, "./a")), None);
}

#[test]
fn accepts_require_after_punctuation_and_spaces() {
    let line = r#"var x = (require  (  './a'));"#;
    assert_eq!(
        at_cursor(line, column_of(line, "./a")),
        Some(Reference::Module("./a".into()))
    );
}

#[test]
fn finds_a_template_attribute_in_any_case() {
    let line = r#"<isdecorate TEMPLATE = 'common/layout/page'>"#;
    assert_eq!(
        at_cursor(line, column_of(line, "common")),
        Some(Reference::Template("common/layout/page".into()))
    );
}

#[test]
fn the_cursor_on_either_quote_belongs_to_the_literal() {
    let line = r#"require('x')"#;
    // The quotes sit at 8 and 10: columns 9 and 10 are on the literal.
    assert_eq!(at_cursor(line, 9), Some(Reference::Module("x".into())));
    assert_eq!(at_cursor(line, 10), Some(Reference::Module("x".into())));
    assert_eq!(at_cursor(line, 8), None);
    assert_eq!(at_cursor(line, 11), None);
}

#[test]
fn a_column_past_the_end_is_the_end_of_the_line() {
    let line = r#"require('unterminated"#;
    assert_eq!(at_cursor(line, 1000), None);
    let line = r#"x = require('y')"#;
    assert_eq!(at_cursor(line, 1000), None);
}

#[test]
fn an_unterminated_literal_ends_the_scan() {
    let line = r#"var a = 'open; require('x')"#;
    assert_eq!(at_cursor(line, column_of(line, "x")), None);
}

#[test]
fn finds_msgf_and_i18n_calls() {
    let line = r#"Resource.msgf ('error.x', 'forms', null, 3)"#;
    assert_eq!(
        at_cursor(line, column_of(line, "forms")),
        Some(Reference::Resource {
            key: "error.x".into(),
            bundle: "forms".into()
        })
    );
    let line = r#"${i18nMessage("a.b", "cart")}"#;
    assert_eq!(
        at_cursor(line, column_of(line, "a.b")),
        Some(Reference::Resource {
            key: "a.b".into(),
            bundle: "cart".into()
        })
    );
}

#[test]
fn a_call_with_one_argument_is_not_a_resource() {
    let line = r#"Resource.msg('only')"#;
    assert_eq!(at_cursor(line, column_of(line, "only")), None);
}

#[test]
fn a_parenthesis_inside_a_string_does_not_close_the_call() {
    let line = r#"Resource.msg(')', 'b')"#;
    assert_eq!(
        at_cursor(line, column_of(line, "b")),
        Some(Reference::Resource {
            key: ")".into(),
            bundle: "b".into()
        })
    );
}

#[test]
fn a_letter_of_any_script_continues_an_identifier() {
    let line = r#"var x = ärequire('./a');"#;
    assert_eq!(at_cursor(line, column_of(line, "./a")), None);
    let line = r#"var x = _require('./a');"#;
    assert_eq!(at_cursor(line, column_of(line, "./a")), None);
}

#[test]
fn a_literal_after_a_call_is_not_part_of_it() {
    let line = r#"Resource.msg('a', 'b') + require('x')"#;
    assert_eq!(
        at_cursor(line, column_of(line, "x")),
        Some(Reference::Module("x".into()))
    );
}

#[test]
fn a_call_is_judged_by_the_character_before_its_name() {
    assert!(ends_with_call_given("x = require (", "require", false));
    assert!(ends_with_call_given("require(", "require", true));
    assert!(ends_with_call_given("x.require(  ", "require", false));
    assert!(!ends_with_call_given("myrequire(", "require", true));
    assert!(ends_with_call_given("myrequire(", "require", false));
    assert!(!ends_with_call_given("_require(", "require", false));
    assert!(!ends_with_call_given("$require(", "require", false));
    assert!(!ends_with_call_given("require", "require", false));
    assert!(!ends_with_call_given("required(", "require", false));
}

#[test]
fn the_innermost_literal_holds_the_cursor() {
    let line = r#"<isset value="${require('a')}" />"#;
    assert_eq!(
        at_cursor(line, column_of(line, "a')")),
        Some(Reference::Module("a".into()))
    );
    let inner = r#"${require('a')}"#;
    assert_eq!(at_cursor(inner, column_of(inner, "a')")), Some(Reference::Module("a".into())));
    assert_eq!(at_cursor(inner, 1), None);
}
