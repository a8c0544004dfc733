//! Render tests: interpolation, sections, inverted sections, lambdas,
//! partials, delimiters, whitespace trimming and escaping.

use mustache::builder::MapBuilder;
use mustache::data::Data;
use mustache::parser::ParseError;
use mustache::template::RenderError;
use mustache::{compile_str, Context, Template};

fn render_str(template: &str, data: &Data) -> String {
    let template = compile_str(template).unwrap();
    template.render_data(data).unwrap()
}

fn name_world() -> Data {
    MapBuilder::new().insert_str("name", "world").build()
}

#[test]
fn test_render_texts() {
    let ctx = name_world();

    assert_eq!(render_str("hello world", &ctx), "hello world".to_string());
    assert_eq!(render_str("hello {world", &ctx), "hello {world".to_string());
    assert_eq!(render_str("hello world}", &ctx), "hello world}".to_string());
    assert_eq!(render_str("hello {world}", &ctx), "hello {world}".to_string());
    assert_eq!(render_str("hello world}}", &ctx), "hello world}}".to_string());
}

#[test]
fn test_render_etags() {
    let ctx = name_world();

    assert_eq!(render_str("hello {{name}}", &ctx), "hello world".to_string());
}

#[test]
fn test_render_utags() {
    let ctx = name_world();

    assert_eq!(render_str("hello {{{name}}}", &ctx), "hello world".to_string());
}

#[test]
fn test_render_sections() {
    let template = "0{{#a}}1 {{n}} 3{{/a}}5";

    let ctx = Data::MapVal(vec![]);
    assert_eq!(render_str(template, &ctx), "05".to_string());

    let ctx = Data::MapVal(vec![("a".to_string(), Data::VecVal(Vec::new()))]);
    assert_eq!(render_str(template, &ctx), "05".to_string());

    let ctx = Data::MapVal(vec![(
        "a".to_string(),
        Data::VecVal(vec![Data::MapVal(vec![])]),
    )]);
    assert_eq!(render_str(template, &ctx), "01  35".to_string());

    let ctx = Data::MapVal(vec![(
        "a".to_string(),
        Data::VecVal(vec![Data::MapVal(vec![(
            "n".to_string(),
            Data::StrVal("a".to_string()),
        )])]),
    )]);
    assert_eq!(render_str(template, &ctx), "01 a 35".to_string());

    let ctx = MapBuilder::new().insert_fn("a", |_text| "foo".to_string()).build();
    assert_eq!(render_str(template, &ctx), "0foo5".to_string());
}

#[test]
fn test_render_inverted_sections() {
    let template = "0{{^a}}1 3{{/a}}5";

    let ctx = Data::MapVal(vec![]);
    assert_eq!(render_str(template, &ctx), "01 35".to_string());

    let ctx = Data::MapVal(vec![("a".to_string(), Data::VecVal(vec![]))]);
    assert_eq!(render_str(template, &ctx), "01 35".to_string());

    let ctx = Data::MapVal(vec![(
        "a".to_string(),
        Data::VecVal(vec![Data::MapVal(vec![])]),
    )]);
    assert_eq!(render_str(template, &ctx), "05".to_string());

    let ctx = Data::MapVal(vec![(
        "a".to_string(),
        Data::VecVal(vec![Data::MapVal(vec![(
            "n".to_string(),
            Data::StrVal("a".to_string()),
        )])]),
    )]);
    assert_eq!(render_str(template, &ctx), "05".to_string());
}

#[test]
fn test_render_inverted_section_bool() {
    let template = "0{{^a}}1 3{{/a}}5";
    let ctx = MapBuilder::new().insert_bool("a", false).build();
    assert_eq!(render_str(template, &ctx), "01 35".to_string());
    let ctx = MapBuilder::new().insert_bool("a", true).build();
    assert_eq!(render_str(template, &ctx), "05".to_string());
}

#[test]
fn test_render_list_iteration_order() {
    let template = "0{{#a}}1 {{n}} 3{{/a}}5";
    let ctx = Data::MapVal(vec![(
        "a".to_string(),
        Data::VecVal(vec![
            Data::MapVal(vec![("n".to_string(), Data::StrVal("x".to_string()))]),
            Data::MapVal(vec![("n".to_string(), Data::StrVal("y".to_string()))]),
        ]),
    )]);
    assert_eq!(render_str(template, &ctx), "01 x 31 y 35".to_string());
}

#[test]
fn test_render_escaping() {
    let ctx = MapBuilder::new().insert_str("name", "<b>").build();
    assert_eq!(render_str("{{name}}", &ctx), "&lt;b&gt;".to_string());
    assert_eq!(render_str("{{{name}}}", &ctx), "<b>".to_string());
    assert_eq!(render_str("{{&name}}", &ctx), "<b>".to_string());

    let ctx = MapBuilder::new().insert_str("name", "&\"'>").build();
    assert_eq!(render_str("{{name}}", &ctx), "&amp;&quot;&#39;&gt;".to_string());
}

#[test]
fn test_render_delimiter_change_scoping() {
    let ctx = MapBuilder::new().insert_str("name", "X").build();
    assert_eq!(
        render_str("before {{=<% %>=}}<%name%> after", &ctx),
        "before X after".to_string()
    );
    // A later change tag restores the default pair.
    assert_eq!(render_str("a{{=<% %>=}}b<%={{ }}=%>c{{name}}", &ctx), "abcX".to_string());
}

#[test]
fn test_render_standalone_line_trimming() {
    let ctx = MapBuilder::new().insert_bool("a", true).build();
    // Both tag lines stand alone and are fully absorbed.
    assert_eq!(render_str("{{#a}}\n{{/a}}", &ctx), "".to_string());
    // Inline tags keep the space between them.
    assert_eq!(render_str("{{#a}} {{/a}}", &ctx), " ".to_string());
    // A standalone comment line disappears too.
    assert_eq!(render_str("x\n{{! note }}\ny", &ctx), "x\ny".to_string());
}

#[test]
fn test_render_dotted_path_and_implicit() {
    let ctx = Data::MapVal(vec![(
        "a".to_string(),
        Data::MapVal(vec![(
            "b".to_string(),
            Data::MapVal(vec![("c".to_string(), Data::StrVal("deep".to_string()))]),
        )]),
    )]);
    assert_eq!(render_str("{{a.b.c}}", &ctx), "deep".to_string());
    assert_eq!(render_str("{{a.b.missing}}", &ctx), "".to_string());
}

#[test]
fn test_render_empty_template() {
    let ctx = Data::MapVal(vec![]);
    assert_eq!(render_str("", &ctx), "".to_string());
}

#[test]
fn test_render_compile_twice_identical() {
    // Compiling the same text twice yields trees rendering identically.
    let text = "a {{x}} {{#s}}b{{/s}} c";
    let data = MapBuilder::new()
        .insert_str("x", "1")
        .insert_bool("s", true)
        .build();
    let t1 = compile_str(text).unwrap();
    let t2 = compile_str(text).unwrap();
    assert_eq!(t1.render_data(&data).unwrap(), t2.render_data(&data).unwrap());
}

#[test]
fn test_render_section_lambda_receives_literal_source() {
    // The section lambda must receive the section's own pre-render
    // literal text unmodified, including whitespace, each time.
    let template = "{{#lambda}}{{x}}{{/lambda}}-{{#lambda}}{{x}}{{/lambda}}";
    let ctx = MapBuilder::new()
        .insert_fn("lambda", |text| {
            if text == "{{x}}" {
                "yes".to_string()
            } else {
                "no".to_string()
            }
        })
        .build();
    assert_eq!(render_str(template, &ctx), "yes-yes".to_string());

    let template = "{{#lambda}} {{x}} {{/lambda}}";
    let ctx = MapBuilder::new()
        .insert_fn("lambda", |text| {
            if text == " {{x}} " {
                "yes".to_string()
            } else {
                "no".to_string()
            }
        })
        .build();
    assert_eq!(render_str(template, &ctx), "yes".to_string());
}

#[test]
fn test_render_interpolation_lambda_multiple_calls() {
    // An interpolation lambda is re-invoked at each occurrence and may
    // carry its own state.
    let mut calls = 0usize;
    let ctx = MapBuilder::new()
        .insert_fn("lambda", move |_text| {
            calls += 1;
            calls.to_string()
        })
        .build();
    assert_eq!(render_str("{{lambda}} {{lambda}} {{lambda}}", &ctx), "1 2 3".to_string());
}

#[test]
fn test_render_section_lambda_uses_section_delimiters() {
    // A section lambda's replacement text is re-parsed with the
    // section's own recorded delimiters; an interpolation lambda's
    // with the default pair.
    let template = "{{=<% %>=}}<%#lambda%>-<%/lambda%>";
    let ctx = MapBuilder::new()
        .insert_str("planet", "Earth")
        .insert_fn("lambda", |text| format!("<%planet%> => {}", text))
        .build();
    assert_eq!(render_str(template, &ctx), "Earth => -".to_string());
}

#[test]
fn test_render_partial_indentation() {
    // A partial referenced with two spaces of leading indentation has
    // every line of its expansion prefixed by those two spaces,
    // including lines from a nested partial.
    let main_tokens = compile_tokens("|\n  {{>p}}\n|");
    let p_tokens = compile_tokens("x\n{{>q}}");
    let q_tokens = compile_tokens("z\n");
    let t = mustache::template::new(
        Context::new(".".to_string()),
        main_tokens,
        vec![("p".to_string(), p_tokens), ("q".to_string(), q_tokens)],
    );
    let ctx = Data::MapVal(vec![]);
    assert_eq!(t.render_data(&ctx).unwrap(), "|\n  x\n  z\n|".to_string());
}

fn compile_tokens(text: &str) -> Vec<mustache::parser::Token> {
    let ctx = Context::new(".".to_string());
    let compiler = mustache::compiler::Compiler::new(ctx, text.chars().collect());
    compiler.compile().unwrap().0
}

#[test]
fn test_render_missing_partial_expands_empty() {
    let ctx = Data::MapVal(vec![]);
    assert_eq!(render_str("a{{>nowhere}}b", &ctx), "ab".to_string());
}

#[test]
fn test_render_error_unexpected_value() {
    let ctx = MapBuilder::new().insert_bool("name", true).build();
    let t = compile_str("{{name}}").unwrap();
    assert_eq!(t.render_data(&ctx), Err(RenderError::UnexpectedValue));
}

#[test]
fn test_render_error_non_map_scope() {
    let ctx = Data::MapVal(vec![(
        "a".to_string(),
        Data::VecVal(vec![Data::StrVal("x".to_string())]),
    )]);
    let t = compile_str("{{#a}}{{n}}{{/a}}").unwrap();
    assert_eq!(t.render_data(&ctx), Err(RenderError::NonMapContext));
}

#[test]
fn test_render_error_self_referential_partial() {
    let p_tokens = compile_tokens("{{>p}}");
    let t = mustache::template::new(
        Context::new(".".to_string()),
        compile_tokens("{{>p}}"),
        vec![("p".to_string(), p_tokens)],
    );
    let ctx = Data::MapVal(vec![]);
    assert_eq!(t.render_data(&ctx), Err(RenderError::TooDeep));
}

#[test]
fn test_render_error_lambda_parse() {
    let ctx = MapBuilder::new().insert_fn("f", |_| "{{broken".to_string()).build();
    let t = compile_str("{{#f}}x{{/f}}").unwrap();
    assert_eq!(
        t.render_data(&ctx),
        Err(RenderError::LambdaParse(ParseError::UnclosedTag))
    );
}

#[test]
fn test_render_total_over_wellformed_input() {
    // Compile plus render never panics over well-formed input: every
    // outcome is an Ok or an Err value.
    let templates = ["{{a}}", "{{#a}}{{.}}{{/a}}", "{{^a}}x{{/a}}", "{{>p}}", "{{!c}}"];
    let datas = [
        Data::MapVal(vec![]),
        Data::MapVal(vec![("a".to_string(), Data::Bool(true))]),
        Data::MapVal(vec![("a".to_string(), Data::StrVal("s".to_string()))]),
        Data::MapVal(vec![("a".to_string(), Data::VecVal(vec![Data::Bool(false)]))]),
    ];
    for t in templates.iter() {
        let template: Template = compile_str(t).unwrap();
        for d in datas.iter() {
            let _ = template.render_data(d);
        }
    }
}
