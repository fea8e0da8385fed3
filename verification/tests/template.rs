use prototype::template::{compile, parse_literal, parse_variable, Chunk, Data, Error};
use prototype::template::window::Window;
use std::collections::HashMap;

fn render(source: &str, pairs: &[(&str, &str)]) -> String {
    let template = compile(source).expect("template to compile");
    let mut data: HashMap<String, String> = HashMap::new();
    for (key, value) in pairs {
        data.insert((*key).to_owned(), (*value).to_owned());
    }
    let data = Data::from(data);
    let mut result = Vec::new();
    template
        .render(&mut result, &data)
        .expect("template to render");
    String::from_utf8(result).expect("utf8 string")
}

#[test]
fn a_string_should_be_returned_literally() {
    let template = compile("Hello, World!").expect("template to compile");
    let data = Data::from(HashMap::new());

    let mut result = Vec::new();
    template
        .render(&mut result, &data)
        .expect("template to render");

    let result = String::from_utf8(result).expect("utf8 string");
    assert_eq!(result, "Hello, World!")
}

#[test]
fn a_string_with_variable_should_be_substituted() {
    let template = compile("Hello, {{subject}}!").expect("template to compile");
    let mut data: HashMap<String, String> = HashMap::new();
    data.insert("subject".to_owned(), "World".to_owned());
    let data = Data::from(data);

    let mut result = Vec::new();
    template
        .render(&mut result, &data)
        .expect("template to render");

    let result = String::from_utf8(result).expect("utf8 string");
    assert_eq!(result, "Hello, World!")
}

#[test]
fn a_string_with_variables_should_be_substituted() {
    let template = compile("{{greeting}}, {{subject}}!").expect("template to compile");
    let mut data: HashMap<String, String> = HashMap::new();
    data.insert("greeting".to_owned(), "Hello".to_owned());
    data.insert("subject".to_owned(), "World".to_owned());
    let data = Data::from(data);

    let mut result = Vec::new();
    template
        .render(&mut result, &data)
        .expect("template to render");

    let result = String::from_utf8(result).expect("utf8 string");
    assert_eq!(result, "Hello, World!")
}

#[test]
fn a_missing_key_leaves_the_placeholder_as_it_is() {
    assert_eq!(render("Hi {{x}}", &[]), "Hi {{x}}");
}

#[test]
fn an_unmatched_placeholder_does_not_compile() {
    assert!(matches!(compile("Hello {{oops"), Err(Error::UnmatchedVariable)));
}

#[test]
fn two_opening_braces_alone_do_not_compile() {
    assert!(matches!(compile("{{"), Err(Error::UnmatchedVariable)));
    assert!(matches!(compile("{{}"), Err(Error::UnmatchedVariable)));
    assert!(matches!(compile("a{{b}"), Err(Error::UnmatchedVariable)));
}

#[test]
fn an_empty_source_renders_to_nothing() {
    assert_eq!(render("", &[]), "");
    assert_eq!(render("", &[("x", "y")]), "");
}

#[test]
fn adjacent_variables_are_substituted() {
    assert_eq!(render("{{a}}{{b}}", &[("a", "1"), ("b", "2")]), "12");
    assert_eq!(render("{{a}}{{b}}", &[("b", "2")]), "{{a}}2");
}

#[test]
fn a_text_without_placeholders_comes_back_unchanged() {
    for source in ["plain", "a { b } c", "}} closes nothing", "{ {", "x{", "naïve — ünïcödé"] {
        assert_eq!(render(source, &[]), source);
        assert_eq!(render(source, &[("plain", "other")]), source);
    }
}

#[test]
fn a_text_comes_back_unchanged_where_no_name_has_a_value() {
    for source in ["{{a}}", "x{{a}}y{{b}}", "{{}}", "{{a}}}", "{{{a}}", "é{{ñ}}ü"] {
        assert_eq!(render(source, &[]), source);
    }
}

#[test]
fn a_value_is_not_scanned_again() {
    assert_eq!(render("{{a}}", &[("a", "{{b}}"), ("b", "no")]), "{{b}}");
}

#[test]
fn an_empty_value_and_an_empty_name_are_accepted() {
    assert_eq!(render("[{{a}}]", &[("a", "")]), "[]");
    assert_eq!(render("[{{}}]", &[("", "nothing")]), "[nothing]");
}

#[test]
fn a_name_is_matched_exactly() {
    assert_eq!(render("{{ a }}", &[("a", "1")]), "{{ a }}");
    assert_eq!(render("{{ a }}", &[(" a ", "1")]), "1");
    assert_eq!(render("{{A}}", &[("a", "1")]), "{{A}}");
}

#[test]
fn a_name_ends_at_the_first_closing_braces() {
    assert_eq!(render("{{a}}}", &[("a", "1")]), "1}");
    assert_eq!(render("{{{a}}", &[("{a", "1")]), "1");
    assert_eq!(render("{{a}b}}", &[("a}b", "1")]), "1");
}

#[test]
fn text_outside_ascii_is_rendered_byte_for_byte() {
    assert_eq!(render("é{{ñ}}ü", &[("ñ", "ß")]), "éßü");
}

#[test]
fn rendering_twice_gives_the_same_output() {
    let template = compile("{{greeting}}, {{subject}}! {{other}}").expect("template to compile");
    let mut data: HashMap<String, String> = HashMap::new();
    data.insert("greeting".to_owned(), "Hello".to_owned());
    data.insert("subject".to_owned(), "World".to_owned());
    let data = Data::from(data);

    let mut first = Vec::new();
    template.render(&mut first, &data).expect("template to render");
    let mut second = Vec::new();
    template.render(&mut second, &data).expect("template to render");

    assert_eq!(first, second);
    assert_eq!(first, b"Hello, World! {{other}}".to_vec());
}

#[test]
fn rendering_adds_to_what_the_writer_holds() {
    let template = compile("b{{c}}").expect("template to compile");
    let data = Data::from(HashMap::new());
    let mut result = b"a".to_vec();
    template.render(&mut result, &data).expect("template to render");
    template.render(&mut result, &data).expect("template to render");
    assert_eq!(result, b"ab{{c}}b{{c}}".to_vec());
}

#[test]
fn one_template_renders_with_several_contexts() {
    let template = compile("{{x}}!").expect("template to compile");
    let mut one: HashMap<String, String> = HashMap::new();
    one.insert("x".to_owned(), "1".to_owned());
    let mut two: HashMap<String, String> = HashMap::new();
    two.insert("x".to_owned(), "2".to_owned());
    let mut first = Vec::new();
    template.render(&mut first, &Data::from(one)).expect("template to render");
    let mut second = Vec::new();
    template.render(&mut second, &Data::from(two)).expect("template to render");
    assert_eq!(first, b"1!".to_vec());
    assert_eq!(second, b"2!".to_vec());
}

#[test]
fn data_gives_the_value_of_a_name() {
    let mut data: HashMap<String, String> = HashMap::new();
    data.insert("subject".to_owned(), "World".to_owned());
    let data = Data::from(data);
    assert_eq!(data.get("subject"), Some(&"World".to_owned()));
    assert_eq!(data.get("object"), None);
    assert_eq!(data.get(""), None);
}

#[test]
fn a_literal_runs_up_to_the_next_opening_braces() {
    assert_eq!(
        parse_literal(b"Hello, {{subject}}!", 0),
        Ok((Chunk::Literal(Window::new(0, 7)), 7))
    );
    assert_eq!(parse_literal(b"!", 18), Ok((Chunk::Literal(Window::new(18, 1)), 1)));
    assert_eq!(parse_literal(b"a{b{{", 3), Ok((Chunk::Literal(Window::new(3, 3)), 3)));
    assert_eq!(parse_literal(b"a{", 0), Ok((Chunk::Literal(Window::new(0, 2)), 2)));
}

#[test]
fn a_literal_can_not_start_with_two_braces() {
    assert_eq!(parse_literal(b"{{x}}", 0), Err(Error::LiteralCanNotStartWithTwoBraces));
    assert_eq!(parse_literal(b"", 5), Err(Error::LiteralCanNotStartWithTwoBraces));
}

#[test]
fn a_variable_spans_its_name_without_the_braces() {
    assert_eq!(
        parse_variable(b"{{subject}}!", 7),
        Ok((Chunk::Variable(Window::new(9, 7)), 11))
    );
    assert_eq!(parse_variable(b"{{}}", 0), Ok((Chunk::Variable(Window::new(2, 0)), 4)));
    assert_eq!(parse_variable(b"{{a}}}", 1), Ok((Chunk::Variable(Window::new(3, 1)), 5)));
}

#[test]
fn a_variable_that_nothing_closes_is_unmatched() {
    assert_eq!(parse_variable(b"{{oops", 6), Err(Error::UnmatchedVariable));
    assert_eq!(parse_variable(b"{{}", 0), Err(Error::UnmatchedVariable));
    assert_eq!(parse_variable(b"{", 0), Err(Error::UnmatchedVariable));
    assert_eq!(parse_variable(b"", 0), Err(Error::UnmatchedVariable));
}

#[test]
fn the_chunks_of_a_source_cover_it() {
    let source = b"Hello, {{subject}}! {{a}}{{b}}";
    let mut index = 0;
    let mut spans = 0;
    let mut variables = 0;
    while index < source.len() {
        let rest = &source[index..];
        let (chunk, delta) = if rest.starts_with(b"{{") {
            parse_variable(rest, index).expect("a variable")
        } else {
            parse_literal(rest, index).expect("a literal")
        };
        match chunk {
            Chunk::Literal(window) => {
                assert_eq!(window.offset, index);
                assert_eq!(window.end(), index + delta);
                spans += window.length;
            }
            Chunk::Variable(window) => {
                assert_eq!(window.offset, index + 2);
                assert_eq!(window.end() + 2, index + delta);
                spans += window.length;
                variables += 1;
            }
        }
        index += delta;
    }
    assert_eq!(index, source.len());
    assert_eq!(variables, 3);
    assert_eq!(spans + 4 * variables, source.len());
}

#[test]
fn a_window_ends_after_its_length() {
    let window = Window::from((3, 4));
    assert_eq!(window, Window::new(3, 4));
    assert_eq!(window.end(), 7);
    assert_eq!(window.range(), 3..7);
    assert_eq!(Window::new(0, 0).end(), 0);
}
