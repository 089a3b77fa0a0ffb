use ted::highlight::{HLAction, Highlighter, Rgb};

fn bytes(s: &str) -> Vec<u8> {
    s.as_bytes().to_vec()
}

#[test]
fn highlighter_reads_scopes_rules_and_colors() {
    let text = "{ red [255 0 0] bg [0 0 30] default { color red background bg } \
                kw { match let color red } q { match qq scope str } \
                str scope default { color [1 2 3] } close { match zz scope end } }";
    let h = Highlighter::from_gon(text);
    assert_eq!(Highlighter::try_from_gon(text).unwrap().regexes, h.regexes);
    let red = Rgb { r: 255, g: 0, b: 0 };
    let bg = Rgb { r: 0, g: 0, b: 30 };

    assert_eq!(h.variables.len(), 2);
    assert_eq!(h.variables[0], (bytes("red"), red));
    assert_eq!(h.variables[1], (bytes("bg"), bg));

    assert_eq!(h.regexes, bytes("letqqzz"));

    assert_eq!(h.scopes.len(), 2);
    let default = &h.scopes[0];
    assert_eq!(default.name, bytes("default"));
    assert_eq!(default.id, 0);
    let d = default.default.unwrap();
    assert_eq!(d.color, Some(red));
    assert_eq!(d.background, Some(bg));
    assert_eq!(default.rules.len(), 2);
    assert_eq!(default.rules[0].pattern_begin, 3);
    assert_eq!(default.rules[0].pattern_end, 3);
    assert_eq!(default.rules[0].color, Some(red));
    assert_eq!(default.rules[0].background, None);
    assert_eq!(default.rules[0].action, HLAction::Nothing);
    assert_eq!(default.rules[1].pattern_begin, 2);
    assert_eq!(default.rules[1].pattern_end, 5);
    assert_eq!(default.rules[1].action, HLAction::BeginScope(1));

    let s = &h.scopes[1];
    assert_eq!(s.name, bytes("str"));
    assert_eq!(s.id, 1);
    let d = s.default.unwrap();
    assert_eq!(d.color, Some(Rgb { r: 1, g: 2, b: 3 }));
    assert_eq!(d.background, None);
    assert_eq!(s.rules.len(), 1);
    assert_eq!(s.rules[0].pattern_begin, 2);
    assert_eq!(s.rules[0].pattern_end, 7);
    assert_eq!(s.rules[0].action, HLAction::EndScope);
}

#[test]
fn highlighter_variable_can_name_another() {
    let h = Highlighter::from_gon("{ red [1 2 3] warm red c [+7 0 0] default { color warm background c } }");
    assert_eq!(h.variables.len(), 3);
    assert_eq!(h.variables[1], (bytes("warm"), Rgb { r: 1, g: 2, b: 3 }));
    assert_eq!(h.variables[2], (bytes("c"), Rgb { r: 7, g: 0, b: 0 }));
    let d = h.scopes[0].default.unwrap();
    assert_eq!(d.color, Some(Rgb { r: 1, g: 2, b: 3 }));
    assert_eq!(d.background, Some(Rgb { r: 7, g: 0, b: 0 }));
}

#[test]
fn highlighter_declares_scopes_before_reading_rules() {
    let h = Highlighter::from_gon(
        "{ default { color [1 1 1] background [0 0 0] } r { match a scope later } later scope }",
    );
    assert_eq!(h.scopes.len(), 2);
    assert_eq!(h.scopes[0].rules[0].action, HLAction::BeginScope(1));
    assert!(h.scopes[1].rules.is_empty());
}

#[test]
fn highlighter_refuses_bad_descriptions() {
    assert!(Highlighter::try_from_gon("hello").is_err());
    assert!(Highlighter::try_from_gon("x").is_err());
    assert!(Highlighter::try_from_gon("{ default { color nope } }").is_err());
    assert!(Highlighter::try_from_gon("{ default { color [1 2] } }").is_err());
    assert!(Highlighter::try_from_gon("{ default { color [1 2 256] } }").is_err());
    assert!(Highlighter::try_from_gon("{ default { color [1 2 x] } }").is_err());
    assert!(Highlighter::try_from_gon("{ red [1 2 3] red [4 5 6] }").is_err());
    assert!(Highlighter::try_from_gon("{ r { match x scope nowhere } }").is_err());
    assert!(Highlighter::try_from_gon("{ r { color [1 2 3] } }").is_err());
    assert!(Highlighter::try_from_gon("{ r { match [1 2 3] } }").is_err());
    assert!(Highlighter::try_from_gon("{ default { } default { } }").is_err());
    assert!(Highlighter::try_from_gon("{ warm red }").is_err());
}

#[test]
fn highlighter_needs_both_default_colors_of_the_default_scope() {
    assert!(Highlighter::try_from_gon("{ }").is_err());
    assert!(Highlighter::try_from_gon("{ default { color [1 1 1] } }").is_err());
    assert!(Highlighter::try_from_gon("{ default { background [1 1 1] } }").is_err());
    assert!(Highlighter::try_from_gon("{ default { color [1 1 1] background [0 0 0] match x } }").is_err());
    assert!(Highlighter::try_from_gon("{ default { color [1 1 1] background [0 0 0] scope end } }").is_err());
    let h = Highlighter::from_gon("{ default { color [1 1 1] background [0 0 0] } }");
    assert_eq!(h.scopes.len(), 1);
    assert!(h.regexes.is_empty());
}
