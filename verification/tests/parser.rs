use prototype::template::parser;
use prototype::template::parser::{
    any, at_least, avoid, between, literal, many, one_of, Error, Limit, Parser, Window,
};
use std::cmp::Ordering;

#[test]
fn literal_should_parse() {
    let input = "{{subject}}";
    let parser = literal("{{");

    let result = parser.parse(&input);

    assert_eq!(result, Ok((Window::from((0, 2)), "subject}}")))
}

#[test]
fn any_should_parse() {
    let input = "abc";
    let parser = any(|c| c.is_ascii_alphabetic());

    let result = parser.parse(&input);

    assert_eq!(result, Ok((Window::from((0, 1)), "bc")))
}

#[test]
fn avoid_should_parse() {
    let input = "abc{{subject}}";
    let parser = avoid("{{");

    let result = parser.parse(&input);

    assert_eq!(result, Ok((Window::from((0, 3)), "{{subject}}")))
}

#[test]
fn limit_should_compare() {
    assert_eq!(Ordering::Less, Limit::At(0).cmp(&Limit::At(1)));
    assert_eq!(Ordering::Equal, Limit::At(1).cmp(&Limit::At(1)));
    assert_eq!(Ordering::Greater, Limit::At(1).cmp(&Limit::At(0)));
    assert_eq!(Ordering::Less, Limit::At(0).cmp(&Limit::Infinity));
    assert_eq!(Ordering::Greater, Limit::Infinity.cmp(&Limit::At(0)));
    assert_eq!(Ordering::Equal, Limit::Infinity.cmp(&Limit::Infinity));
}

#[test]
fn map_should_parse() {
    let input = "abc";
    let parser = parser::map(any(|c| c.is_ascii_alphabetic()), |w| w.end());

    let result = parser.parse(&input);

    assert_eq!(result, Ok((1, "bc")))
}

#[test]
fn one_of_should_parse() {
    let input = "abc";
    let parser = one_of(vec![literal("c"), literal("b"), literal("a")]);

    let result = parser.parse(&input);

    assert_eq!(result, Ok((Window::from((0, 1)), "bc")))
}

#[test]
fn many_should_parse() {
    let input = "abc{{subject}}";
    let parser = many(any(|c| c.is_ascii_alphabetic()));

    let result = parser.parse(&input);

    assert_eq!(
        result,
        Ok((
            vec![Window::from((0, 1)), Window::from((1, 1)), Window::from((2, 1))],
            "{{subject}}"
        ))
    )
}

#[test]
fn limits_compare_with_operators_as_with_cmp() {
    assert!(Limit::At(0) < Limit::At(1));
    assert!(Limit::At(u64::MAX) < Limit::Infinity);
    assert!(Limit::Infinity > Limit::At(7));
    assert!(Limit::Infinity >= Limit::Infinity);
    assert!(Limit::At(3) == Limit::At(3));
    assert!(Limit::At(3) != Limit::Infinity);
    assert_eq!(Limit::At(2).partial_cmp(&Limit::At(1)), Some(Ordering::Greater));
    assert_eq!(Limit::At(5).max(Limit::Infinity), Limit::Infinity);
    assert!(Limit::Infinity.exceeds(u64::MAX));
    assert!(Limit::At(4).exceeds(3));
    assert!(!Limit::At(4).exceeds(4));
}

#[test]
fn literal_fails_on_another_text() {
    assert_eq!(
        literal("{{").parse("{subject}}"),
        Err(Error::ExpectedLiteral("{{".to_owned()))
    );
    assert_eq!(literal("abc").parse("ab"), Err(Error::ExpectedLiteral("abc".to_owned())));
    assert_eq!(literal("a").parse("A"), Err(Error::ExpectedLiteral("a".to_owned())));
}

#[test]
fn literal_takes_its_own_length() {
    assert_eq!(literal("").parse("abc"), Ok((Window::from((0, 0)), "abc")));
    assert_eq!(literal("abc").parse("abc"), Ok((Window::from((0, 3)), "")));
    assert_eq!(literal("é")._parse(4, "été"), Ok((Window::from((4, 2)), "té")));
}

#[test]
fn any_fails_on_a_rejected_character_and_at_the_end() {
    let parser = any(|c| c.is_ascii_alphabetic());
    assert_eq!(parser.parse("1bc"), Err(Error::UnexpectedCharacter('1')));
    assert_eq!(parser.parse(""), Err(Error::UnexpectedEOF));
}

#[test]
fn any_takes_one_character_whatever_its_width() {
    let parser = any(|c: char| c.is_alphabetic());
    assert_eq!(parser._parse(7, "été"), Ok((Window::from((7, 1)), "té")));
    assert_eq!(any(|c| c == '€').parse("€"), Ok((Window::from((0, 1)), "")));
    assert_eq!(any(|_| true).parse("𝄞x"), Ok((Window::from((0, 1)), "x")));
}

#[test]
fn avoid_rejects_a_prefix_of_no_length() {
    assert_eq!(
        avoid("{{").parse("{{x}}"),
        Err(Error::ExpectedToAvoid("{{".to_owned()))
    );
    assert_eq!(
        avoid("{{").parse("abc{{x}}"),
        Ok((Window::from((0, 3)), "{{x}}"))
    );
}

#[test]
fn avoid_fails_where_the_marker_does_not_occur() {
    assert_eq!(avoid("{{").parse("abc"), Err(Error::ExpectedToAvoid("{{".to_owned())));
    assert_eq!(avoid("{{").parse("abc{"), Err(Error::ExpectedToAvoid("{{".to_owned())));
    assert_eq!(avoid("{{").parse(""), Err(Error::ExpectedToAvoid("{{".to_owned())));
    assert_eq!(avoid("").parse("abc"), Err(Error::ExpectedToAvoid("".to_owned())));
}

#[test]
fn avoid_stops_at_the_first_occurrence() {
    assert_eq!(avoid("ab")._parse(2, "xaabab"), Ok((Window::from((2, 2)), "abab")));
    assert_eq!(avoid("é").parse("naïvé"), Ok((Window::from((0, 5)), "é")));
}

#[test]
fn map_passes_an_error_on() {
    let parser = parser::map(any(|c| c.is_ascii_alphabetic()), |w: Window| w.end());
    assert_eq!(parser.parse("1"), Err(Error::UnexpectedCharacter('1')));
    assert_eq!(parser._parse(4, "x"), Ok((5, "")));
}

#[test]
fn one_of_fails_where_no_parser_accepts() {
    let parser = one_of(vec![literal("c"), literal("b")]);
    assert_eq!(parser.parse("abc"), Err(Error::ExpectedOneOfToParse));
    let none: Vec<parser::Literal> = Vec::new();
    assert_eq!(one_of(none).parse("abc"), Err(Error::ExpectedOneOfToParse));
}

#[test]
fn one_of_takes_the_first_that_accepts() {
    let parser = one_of(vec![literal("a"), literal("ab"), literal("abc")]);
    assert_eq!(parser.parse("abc"), Ok((Window::from((0, 1)), "bc")));
    let parser = one_of(vec![literal("abc"), literal("ab"), literal("a")]);
    assert_eq!(parser._parse(3, "abc"), Ok((Window::from((3, 3)), "")));
}

#[test]
fn between_stops_at_its_upper_bound() {
    let parser = between(2, 4, any(|c| c.is_ascii_alphabetic()));
    assert_eq!(
        parser.parse("abcde"),
        Ok((
            vec![
                Window::from((0, 1)),
                Window::from((1, 1)),
                Window::from((2, 1)),
                Window::from((3, 1))
            ],
            "e"
        ))
    );
}

#[test]
fn between_fails_below_its_lower_bound() {
    let parser = between(2, 4, any(|c| c.is_ascii_alphabetic()));
    assert_eq!(parser.parse("a"), Err(Error::UnexpectedEOF));
    assert_eq!(parser.parse("a1"), Err(Error::UnexpectedCharacter('1')));
    assert_eq!(parser.parse(""), Err(Error::UnexpectedEOF));
}

#[test]
fn between_stops_without_failing_once_the_floor_is_met() {
    let parser = between(2, 4, any(|c| c.is_ascii_alphabetic()));
    assert_eq!(
        parser.parse("ab1"),
        Ok((vec![Window::from((0, 1)), Window::from((1, 1))], "1"))
    );
    assert_eq!(
        parser.parse("abc"),
        Ok((
            vec![Window::from((0, 1)), Window::from((1, 1)), Window::from((2, 1))],
            ""
        ))
    );
}

#[test]
fn between_applies_the_lower_bound_even_above_the_upper() {
    let parser = between(3, 1, any(|c| c.is_ascii_alphabetic()));
    assert_eq!(
        parser.parse("abcde"),
        Ok((
            vec![Window::from((0, 1)), Window::from((1, 1)), Window::from((2, 1))],
            "de"
        ))
    );
    assert_eq!(between(0, 0, literal("a")).parse("aa"), Ok((vec![], "aa")));
}

#[test]
fn between_counts_positions_from_its_offset() {
    let parser = between(1, 3, literal("ab"));
    assert_eq!(
        parser._parse(10, "ababab!"),
        Ok((
            vec![Window::from((10, 2)), Window::from((12, 2)), Window::from((14, 2))],
            "!"
        ))
    );
}

#[test]
fn at_least_has_no_upper_bound() {
    let parser = at_least(2, literal("a"));
    assert_eq!(parser.parse("a"), Err(Error::ExpectedLiteral("a".to_owned())));
    assert_eq!(
        parser.parse("aaab"),
        Ok((
            vec![Window::from((0, 1)), Window::from((1, 1)), Window::from((2, 1))],
            "b"
        ))
    );
}

#[test]
fn many_accepts_no_repetition() {
    let parser = many(any(|c| c.is_ascii_alphabetic()));
    assert_eq!(parser.parse("{{subject}}"), Ok((vec![], "{{subject}}")));
    assert_eq!(parser.parse(""), Ok((vec![], "")));
}

#[test]
fn combinators_nest() {
    let word = many(any(|c| c.is_ascii_alphabetic()));
    let parser = parser::map(word, |windows: Vec<Window>| windows.len());
    assert_eq!(parser.parse("abc def"), Ok((3, " def")));
    let lines = many(one_of(vec![literal("ab"), literal("a")]));
    assert_eq!(
        lines.parse("aabab"),
        Ok((
            vec![Window::from((0, 1)), Window::from((1, 2)), Window::from((3, 2))],
            ""
        ))
    );
}
