use keylight::{
    parse, parse_config, parse_tokens, render_tokens, tokenize, Color, EffectKind, KeyConfig,
    ParseError,
};

fn s(x: &str) -> String {
    x.to_string()
}

#[test]
fn tokenize_normalizes_and_drops_empty_fragments() {
    assert_eq!(tokenize(" Red , BLUE ,,green"), vec![s("red"), s("blue"), s("green")]);
}

#[test]
fn tokenize_blank_and_comma_only_lines() {
    assert!(tokenize("").is_empty());
    assert!(tokenize("   ").is_empty());
    assert!(tokenize(",, ,").is_empty());
}

#[test]
fn tokenize_trims_unicode_white_space() {
    assert_eq!(tokenize("\tA\u{3000},\u{A0}b\n"), vec![s("a"), s("b")]);
}

#[test]
fn tokenize_lowercases_each_fragment() {
    assert_eq!(tokenize("WAVE"), vec![s("wave")]);
    assert_eq!(tokenize("ÀB,C"), vec![s("àb"), s("c")]);
}

#[test]
fn wave_with_zero_colors_is_valid() {
    let r = parse_config(vec!["a", "wave", ""]).unwrap();
    assert_eq!(r, vec![KeyConfig::Wave { code: s("a"), colors: vec![] }]);
}

#[test]
fn wave_keeps_color_order() {
    let r = parse_config(vec!["a", "wave", "red,green,red"]).unwrap();
    assert_eq!(
        r,
        vec![KeyConfig::Wave { code: s("a"), colors: vec![Color::Red, Color::Green, Color::Red] }]
    );
}

#[test]
fn static_with_two_colors_is_invalid() {
    let r = parse_config(vec!["a", "static", "red,blue"]);
    assert_eq!(r, Err(ParseError::InvalidColorCount(EffectKind::Static)));
}

#[test]
fn static_with_no_color_is_invalid() {
    let r = parse_config(vec!["a", "static", ""]);
    assert_eq!(r, Err(ParseError::InvalidColorCount(EffectKind::Static)));
}

#[test]
fn static_with_one_color() {
    let r = parse_config(vec!["A", "Static", " Yellow "]).unwrap();
    assert_eq!(r, vec![KeyConfig::Static { code: s("a"), color: Color::Yellow }]);
}

#[test]
fn disco_with_three_colors_for_two_keys() {
    let r = parse_config(vec!["a,b", "disco", "red,blue,green"]).unwrap();
    assert_eq!(
        r,
        vec![
            KeyConfig::Disco {
                code: s("a"),
                color1: Color::Red,
                color2: Color::Blue,
                color3: Color::Green
            },
            KeyConfig::Disco {
                code: s("b"),
                color1: Color::Red,
                color2: Color::Blue,
                color3: Color::Green
            },
        ]
    );
}

#[test]
fn disco_with_two_colors_is_invalid() {
    let r = parse_config(vec!["a", "disco", "red,blue"]);
    assert_eq!(r, Err(ParseError::InvalidColorCount(EffectKind::Disco)));
}

#[test]
fn line_count_not_multiple_of_three() {
    let r = parse_config(vec!["a", "wave", "red", "b"]);
    assert_eq!(r, Err(ParseError::MalformedInput));
    let m = parse(vec!["a", "wave", "red", "b"]);
    assert_eq!(m, Err(s("INVALID: Missing lines to complete the config")));
}

#[test]
fn unknown_effect_is_named() {
    let r = parse_config(vec!["a", "rainbow", "red"]);
    assert_eq!(r, Err(ParseError::UnknownEffect(s("rainbow"))));
    assert_eq!(parse(vec!["a", "rainbow", "red"]), Err(s("INVALID: Unknown effect: rainbow")));
}

#[test]
fn effect_line_needs_exactly_one_token() {
    assert_eq!(parse_config(vec!["a", "", "red"]), Err(ParseError::InvalidEffectArity));
    assert_eq!(parse_config(vec!["a", "static,wave", "red"]), Err(ParseError::InvalidEffectArity));
    assert_eq!(
        parse(vec!["a", "static,wave", "red"]),
        Err(s("INVALID: Only one effect expected by line"))
    );
}

#[test]
fn invalid_key_is_named() {
    assert_eq!(parse_config(vec!["a,b1,c", "wave", ""]), Err(ParseError::InvalidKey(s("b1"))));
    assert_eq!(parse_config(vec!["a b", "wave", ""]), Err(ParseError::InvalidKey(s("a b"))));
    assert_eq!(parse_config(vec!["é", "wave", ""]), Err(ParseError::InvalidKey(s("é"))));
    assert_eq!(parse(vec!["1", "wave", ""]), Err(s("INVALID: Invalid key token: 1")));
}

#[test]
fn first_invalid_key_is_reported() {
    assert_eq!(parse_config(vec!["x_, y!", "wave", ""]), Err(ParseError::InvalidKey(s("x_"))));
}

#[test]
fn invalid_color_is_named() {
    assert_eq!(
        parse_config(vec!["a", "wave", "red,purple,pink"]),
        Err(ParseError::InvalidColor(s("purple")))
    );
    assert_eq!(parse(vec!["a", "wave", "pink"]), Err(s("INVALID: Invalid color: pink")));
}

#[test]
fn keys_are_checked_before_effect_and_colors() {
    assert_eq!(parse_config(vec!["1", "rainbow", "pink"]), Err(ParseError::InvalidKey(s("1"))));
    assert_eq!(
        parse_config(vec!["a", "rainbow", "pink"]),
        Err(ParseError::UnknownEffect(s("rainbow")))
    );
    assert_eq!(
        parse_config(vec!["a", "static", "pink,red"]),
        Err(ParseError::InvalidColor(s("pink")))
    );
}

#[test]
fn first_failing_triple_stops_the_parse() {
    let r = parse_config(vec!["a", "wave", "red", "b", "static", "", "c", "rainbow", ""]);
    assert_eq!(r, Err(ParseError::InvalidColorCount(EffectKind::Static)));
}

#[test]
fn color_count_messages() {
    assert_eq!(
        parse(vec!["a", "static", ""]),
        Err(s("INVALID: Static effects are single color only"))
    );
    assert_eq!(parse(vec!["a", "disco", "red"]), Err(s("INVALID: Disco config requires 3 colors")));
}

#[test]
fn empty_input_gives_no_effects() {
    assert_eq!(parse(vec![]), Ok(vec![]));
}

#[test]
fn empty_keys_line_gives_no_effects() {
    assert_eq!(parse_config(vec!["", "static", "red"]), Ok(vec![]));
    assert_eq!(parse_config(vec!["", "static", "red,blue"]), Err(ParseError::InvalidColorCount(EffectKind::Static)));
}

#[test]
fn output_is_sorted_by_code_without_duplicates() {
    let r = parse_config(vec!["d,b,c", "static", "red", "a,c", "wave", "blue"]).unwrap();
    let codes: Vec<&String> = r.iter().map(|k| k.code()).collect();
    assert_eq!(codes, vec!["a", "b", "c", "d"]);
    assert_eq!(r[2], KeyConfig::Wave { code: s("c"), colors: vec![Color::Blue] });
}

#[test]
fn sort_is_by_code_point() {
    let r = parse_config(vec!["ba,B,ab,a", "static", "red"]).unwrap();
    let codes: Vec<&String> = r.iter().map(|k| k.code()).collect();
    assert_eq!(codes, vec!["a", "ab", "b", "ba"]);
}

#[test]
fn later_triple_overrides_earlier_one() {
    let r = parse_config(vec![
        "a,b", "static", "red", //
        "a", "disco", "red,blue,green", //
        "c", "wave", "orange",
    ])
    .unwrap();
    assert_eq!(
        r,
        vec![
            KeyConfig::Disco {
                code: s("a"),
                color1: Color::Red,
                color2: Color::Blue,
                color3: Color::Green
            },
            KeyConfig::Static { code: s("b"), color: Color::Red },
            KeyConfig::Wave { code: s("c"), colors: vec![Color::Orange] },
        ]
    );
}

#[test]
fn repeated_key_in_one_triple_gives_one_effect() {
    let r = parse_config(vec!["a,A,a", "static", "green"]).unwrap();
    assert_eq!(r, vec![KeyConfig::Static { code: s("a"), color: Color::Green }]);
}

#[test]
fn names_and_codes() {
    assert_eq!(Color::Green.name(), "green");
    assert_eq!(Color::Blue.name(), "blue");
    assert_eq!(Color::Red.name(), "red");
    assert_eq!(Color::Yellow.name(), "yellow");
    assert_eq!(Color::Orange.name(), "orange");
    assert_eq!(EffectKind::Static.name(), "static");
    assert_eq!(EffectKind::Wave.name(), "wave");
    assert_eq!(EffectKind::Disco.name(), "disco");
    let k = KeyConfig::Wave { code: s("q"), colors: vec![] };
    assert_eq!(k.code(), "q");
}

#[test]
fn all_colors_are_read() {
    let r = parse_config(vec!["a", "wave", "GREEN,blue,Red,yellow,orange"]).unwrap();
    assert_eq!(
        r,
        vec![KeyConfig::Wave {
            code: s("a"),
            colors: vec![Color::Green, Color::Blue, Color::Red, Color::Yellow, Color::Orange]
        }]
    );
}

#[test]
fn render_tokens_writes_three_lines_per_effect() {
    let r = parse_config(vec!["b,a", "disco", "red,blue,green", "c", "wave", "", "d", "static", "orange"]).unwrap();
    let lines = render_tokens(&r);
    let expect: Vec<Vec<String>> = vec![
        vec![s("a")],
        vec![s("disco")],
        vec![s("red"), s("blue"), s("green")],
        vec![s("b")],
        vec![s("disco")],
        vec![s("red"), s("blue"), s("green")],
        vec![s("c")],
        vec![s("wave")],
        vec![],
        vec![s("d")],
        vec![s("static")],
        vec![s("orange")],
    ];
    assert_eq!(lines, expect);
}

#[test]
fn parsing_a_rendering_gives_the_same_result() {
    let r = parse_config(vec![
        "Zed, ab", "WAVE", "yellow,Red", //
        "ab,c", "static", "blue", //
        "q", "disco", "orange,orange,green",
    ])
    .unwrap();
    let again = parse_tokens(render_tokens(&r)).unwrap();
    assert_eq!(again, r);
    let text: Vec<String> = render_tokens(&r).iter().map(|l| l.join(",")).collect();
    let again_text = parse_config(text.iter().map(|l| l.as_str()).collect()).unwrap();
    assert_eq!(again_text, r);
}

#[test]
fn parse_tokens_takes_tokenized_lines() {
    let lines = vec![vec![s("a")], vec![s("static")], vec![s("red")]];
    assert_eq!(parse_tokens(lines), Ok(vec![KeyConfig::Static { code: s("a"), color: Color::Red }]));
    assert_eq!(parse_tokens(vec![vec![s("a")]]), Err(ParseError::MalformedInput));
}
