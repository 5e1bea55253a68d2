use splice::parse::{parse, Error};
use splice::{Item, Splice};

#[test]
fn no_tags() {
    let input = "This is ordinary text";
    let output = Splice(vec![Item::Text(input)]);
    assert_eq!(parse(input).unwrap(), output);
}

#[test]
fn nested_braces() {
    let original = "Enclosed";

    let mut input = original.to_owned();
    let mut output = Splice(vec![Item::Text(original)]);

    for _ in 0..100 {
        input = format!("{{{}}}", input);
        output = Splice(vec![Item::Braces(output)]);
        assert_eq!(parse(&input).unwrap(), output);
    }
}

#[test]
fn empty_tag() {
    let text = "\\test{}";
    assert_eq!(
        parse(text).unwrap(),
        Splice(vec![Item::Tag {
            name: "test",
            body: Splice(vec![]),
        }])
    );
}

#[test]
fn nested_braces_and_tags() {
    let input = "\\b{\\i{\\o{\\u{Have you read your \\book today?}}}}";

    let mut output = Splice(vec![
        Item::Text("Have you read your "),
        Item::Tag {
            name: "book",
            body: Splice(vec![]),
        },
        Item::Text(" today?"),
    ]);

    for &name in &["u", "o", "i", "b"] {
        output = Splice(vec![Item::Tag { name, body: output }]);
    }

    assert_eq!(parse(input).unwrap(), output);
}

#[test]
fn fmt_round_trip() {
    let inputs = vec![
        "\\q{Surrounded by \\q{quotation marks!}}",
        "This is ordinary text containing no markup",
        "\\defun{\\greet{} \\print{Hello, world}}",
        // Don't test these -- \foo and \foo{} have the same representation
        //"\\hello\\world",
    ];

    for input in inputs {
        let output = parse(input).unwrap();
        assert_eq!(output.render(), input);
    }
}

#[test]
fn empty_input() {
    assert_eq!(parse("").unwrap(), Splice(vec![]));
}

#[test]
fn unmatched_closing_brace() {
    assert_eq!(parse("}").unwrap_err(), Error::TooManyClosingBraces);
}

#[test]
fn unclosed_brace() {
    assert_eq!(parse("{foo").unwrap_err(), Error::TooFewClosingBraces);
}

#[test]
fn unclosed_tag_body() {
    assert_eq!(parse("\\a{x").unwrap_err(), Error::TooFewClosingBraces);
}

#[test]
fn stray_close_after_text() {
    assert_eq!(parse("a}b").unwrap_err(), Error::TooManyClosingBraces);
}

#[test]
fn stray_close_after_group() {
    assert_eq!(parse("{}}").unwrap_err(), Error::TooManyClosingBraces);
}

#[test]
fn bare_tag_renders_with_braces() {
    let output = parse("\\hello\\world").unwrap();
    assert_eq!(
        output,
        Splice(vec![
            Item::Tag {
                name: "hello",
                body: Splice(vec![]),
            },
            Item::Tag {
                name: "world",
                body: Splice(vec![]),
            },
        ])
    );
    assert_eq!(output.render(), "\\hello{}\\world{}");
    assert_eq!(output.0[0].render(), "\\hello{}");
}

#[test]
fn reparse_after_render_is_idempotent() {
    let inputs = [
        "\\q{Surrounded by \\q{quotation marks!}}",
        "\\hello\\world",
        "{a{b}c}",
        "",
    ];
    for input in inputs {
        let once = parse(input).unwrap();
        let rendered = once.render();
        let twice = parse(&rendered).unwrap();
        assert_eq!(once, twice);
        assert_eq!(twice.render(), rendered);
    }
}

#[test]
fn name_stops_at_nonalphabetic() {
    assert_eq!(
        parse("\\ab1{x}").unwrap(),
        Splice(vec![
            Item::Tag {
                name: "ab",
                body: Splice(vec![]),
            },
            Item::Text("1"),
            Item::Braces(Splice(vec![Item::Text("x")])),
        ])
    );
}

#[test]
fn empty_name_tag() {
    assert_eq!(
        parse("\\{x}").unwrap(),
        Splice(vec![Item::Tag {
            name: "",
            body: Splice(vec![Item::Text("x")]),
        }])
    );
    assert_eq!(
        parse("\\").unwrap(),
        Splice(vec![Item::Tag {
            name: "",
            body: Splice(vec![]),
        }])
    );
}

#[test]
fn unicode_names_and_text() {
    let input = "\\caf\u{e9}{na\u{ef}ve}";
    let output = parse(input).unwrap();
    assert_eq!(
        output,
        Splice(vec![Item::Tag {
            name: "caf\u{e9}",
            body: Splice(vec![Item::Text("na\u{ef}ve")]),
        }])
    );
    assert_eq!(output.render(), input);
}
