//! Compilation tests: token trees produced for text runs, tags,
//! sections, partials and delimiter changes.

use mustache::parser::{ParseError, Token};

fn compile_str_tokens(template: &str) -> Vec<Token> {
    let ctx = mustache::Context::new(".".to_string());
    let reader: Vec<char> = template.chars().collect();
    let compiler = mustache::compiler::Compiler::new(ctx, reader);
    let (tokens, _partials) = compiler.compile().unwrap();
    tokens
}

fn compile_err(template: &str) -> ParseError {
    match mustache::compile_str(template) {
        Ok(_) => panic!("expected a parse error for {:?}", template),
        Err(e) => e,
    }
}

fn check_tokens(actual: Vec<Token>, expected: &[Token]) {
    assert_eq!(actual.len(), expected.len());
    for (a, e) in actual.iter().zip(expected.iter()) {
        assert_eq!(a, e);
    }
}

#[test]
fn test_compile_texts() {
    check_tokens(compile_str_tokens("hello world"), &[Token::Text("hello world".to_string())]);
    check_tokens(compile_str_tokens("hello {world"), &[Token::Text("hello {world".to_string())]);
    check_tokens(compile_str_tokens("hello world}"), &[Token::Text("hello world}".to_string())]);
    check_tokens(compile_str_tokens("hello world}}"), &[Token::Text("hello world}}".to_string())]);
}

#[test]
fn test_compile_etags() {
    check_tokens(
        compile_str_tokens("{{ name }}"),
        &[Token::ETag(vec!["name".to_string()], "{{ name }}".to_string())],
    );

    check_tokens(
        compile_str_tokens("before {{name}} after"),
        &[
            Token::Text("before ".to_string()),
            Token::ETag(vec!["name".to_string()], "{{name}}".to_string()),
            Token::Text(" after".to_string()),
        ],
    );

    check_tokens(
        compile_str_tokens("before {{name}}"),
        &[
            Token::Text("before ".to_string()),
            Token::ETag(vec!["name".to_string()], "{{name}}".to_string()),
        ],
    );

    check_tokens(
        compile_str_tokens("{{name}} after"),
        &[
            Token::ETag(vec!["name".to_string()], "{{name}}".to_string()),
            Token::Text(" after".to_string()),
        ],
    );
}

#[test]
fn test_compile_utags() {
    check_tokens(
        compile_str_tokens("{{{name}}}"),
        &[Token::UTag(vec!["name".to_string()], "{{{name}}}".to_string())],
    );

    check_tokens(
        compile_str_tokens("before {{{name}}} after"),
        &[
            Token::Text("before ".to_string()),
            Token::UTag(vec!["name".to_string()], "{{{name}}}".to_string()),
            Token::Text(" after".to_string()),
        ],
    );

    check_tokens(
        compile_str_tokens("before {{{name}}}"),
        &[
            Token::Text("before ".to_string()),
            Token::UTag(vec!["name".to_string()], "{{{name}}}".to_string()),
        ],
    );

    check_tokens(
        compile_str_tokens("{{{name}}} after"),
        &[
            Token::UTag(vec!["name".to_string()], "{{{name}}}".to_string()),
            Token::Text(" after".to_string()),
        ],
    );
}

#[test]
fn test_compile_sections() {
    check_tokens(
        compile_str_tokens("{{# name}}{{/name}}"),
        &[Token::Section(
            vec!["name".to_string()],
            false,
            Vec::new(),
            "{{".to_string(),
            "{{# name}}".to_string(),
            "".to_string(),
            "{{/name}}".to_string(),
            "}}".to_string(),
        )],
    );

    check_tokens(
        compile_str_tokens("before {{^name}}{{/name}} after"),
        &[
            Token::Text("before ".to_string()),
            Token::Section(
                vec!["name".to_string()],
                true,
                Vec::new(),
                "{{".to_string(),
                "{{^name}}".to_string(),
                "".to_string(),
                "{{/name}}".to_string(),
                "}}".to_string(),
            ),
            Token::Text(" after".to_string()),
        ],
    );

    check_tokens(
        compile_str_tokens("before {{#name}}{{/name}}"),
        &[
            Token::Text("before ".to_string()),
            Token::Section(
                vec!["name".to_string()],
                false,
                Vec::new(),
                "{{".to_string(),
                "{{#name}}".to_string(),
                "".to_string(),
                "{{/name}}".to_string(),
                "}}".to_string(),
            ),
        ],
    );

    check_tokens(
        compile_str_tokens("{{#name}}{{/name}} after"),
        &[
            Token::Section(
                vec!["name".to_string()],
                false,
                Vec::new(),
                "{{".to_string(),
                "{{#name}}".to_string(),
                "".to_string(),
                "{{/name}}".to_string(),
                "}}".to_string(),
            ),
            Token::Text(" after".to_string()),
        ],
    );

    check_tokens(
        compile_str_tokens("before {{#a}} 1 {{^b}} 2 {{/b}} {{/a}} after"),
        &[
            Token::Text("before ".to_string()),
            Token::Section(
                vec!["a".to_string()],
                false,
                vec![
                    Token::Text(" 1 ".to_string()),
                    Token::Section(
                        vec!["b".to_string()],
                        true,
                        vec![Token::Text(" 2 ".to_string())],
                        "{{".to_string(),
                        "{{^b}}".to_string(),
                        " 2 ".to_string(),
                        "{{/b}}".to_string(),
                        "}}".to_string(),
                    ),
                    Token::Text(" ".to_string()),
                ],
                "{{".to_string(),
                "{{#a}}".to_string(),
                " 1 {{^b}} 2 {{/b}} ".to_string(),
                "{{/a}}".to_string(),
                "}}".to_string(),
            ),
            Token::Text(" after".to_string()),
        ],
    );
}

#[test]
fn test_compile_partials() {
    check_tokens(
        compile_str_tokens("{{> test}}"),
        &[Token::Partial("test".to_string(), "".to_string(), "{{> test}}".to_string())],
    );

    check_tokens(
        compile_str_tokens("before {{>test}} after"),
        &[
            Token::Text("before ".to_string()),
            Token::Partial("test".to_string(), "".to_string(), "{{>test}}".to_string()),
            Token::Text(" after".to_string()),
        ],
    );

    check_tokens(
        compile_str_tokens("before {{> test}}"),
        &[
            Token::Text("before ".to_string()),
            Token::Partial("test".to_string(), "".to_string(), "{{> test}}".to_string()),
        ],
    );

    check_tokens(
        compile_str_tokens("{{>test}} after"),
        &[
            Token::Partial("test".to_string(), "".to_string(), "{{>test}}".to_string()),
            Token::Text(" after".to_string()),
        ],
    );
}

#[test]
fn test_compile_delimiters() {
    check_tokens(
        compile_str_tokens("before {{=<% %>=}}<%name%> after"),
        &[
            Token::Text("before ".to_string()),
            Token::ETag(vec!["name".to_string()], "<%name%>".to_string()),
            Token::Text(" after".to_string()),
        ],
    );
}

#[test]
fn test_compile_dotted_and_implicit_paths() {
    check_tokens(
        compile_str_tokens("{{a.b.c}}"),
        &[Token::ETag(
            vec!["a".to_string(), "b".to_string(), "c".to_string()],
            "{{a.b.c}}".to_string(),
        )],
    );
    check_tokens(compile_str_tokens("{{.}}"), &[Token::ETag(vec![], "{{.}}".to_string())]);
}

#[test]
fn test_compile_error_unclosed_tag() {
    assert_eq!(compile_err("hello {{name"), ParseError::UnclosedTag);
}

#[test]
fn test_compile_error_empty_tag() {
    assert_eq!(compile_err("{{}}"), ParseError::EmptyTag);
    assert_eq!(compile_err("{{ }}"), ParseError::EmptyTag);
}

#[test]
fn test_compile_error_bad_close_tag() {
    assert_eq!(compile_err("{{a}b}}"), ParseError::BadCloseTag);
}

#[test]
fn test_compile_error_unbalanced_unescape() {
    assert_eq!(compile_err("{{{a}x}}"), ParseError::UnbalancedUnescapeTag);
}

#[test]
fn test_compile_error_bad_delimiter_tag() {
    assert_eq!(compile_err("{{=x=}}"), ParseError::BadDelimiterTag);
    assert_eq!(compile_err("{{=}}"), ParseError::BadDelimiterTag);
}

#[test]
fn test_compile_error_unopened_section() {
    assert_eq!(compile_err("{{/a}}"), ParseError::UnopenedSection);
}

#[test]
fn test_compile_error_unclosed_section() {
    assert_eq!(compile_err("{{#a}}"), ParseError::UnclosedSection);
    assert_eq!(compile_err("{{#a}}{{/b}}"), ParseError::UnclosedSection);
}
