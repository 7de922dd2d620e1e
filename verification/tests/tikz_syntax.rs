use hccr_verified::tikz::syntax::render_raw_into;
use hccr_verified::tikz::{escape_tikz, TikzDrawCommand, TikzLabel, TikzOptions};

fn strings(items: &[&str]) -> Vec<String> {
    items.iter().map(|item| item.to_string()).collect()
}

#[test]
fn tikz_options_render_empty_and_non_empty_lists() {
    let options = TikzOptions::default();
    assert!(options.is_empty());
    assert_eq!(options.render_inner(), "");
    assert_eq!(options.render_brackets(), "");
    assert_eq!(options.render_braces(), "{}");
    assert_eq!(
        options.iter().iter().map(String::as_str).collect::<Vec<_>>(),
        Vec::<&str>::new()
    );

    let mut options = TikzOptions::new(strings(&["draw"]));
    options.push("thick".to_string());
    options.extend(strings(&["orange"]));
    assert!(!options.is_empty());
    assert_eq!(
        options.iter().iter().map(String::as_str).collect::<Vec<_>>(),
        vec!["draw", "thick", "orange"]
    );
    assert_eq!(options.render_inner(), "draw, thick, orange");
    assert_eq!(options.render_brackets(), "[draw, thick, orange]");
    assert_eq!(options.render_braces(), "{draw, thick, orange}");
}

#[test]
fn escape_tikz_escapes_latex_special_characters() {
    assert_eq!(
        escape_tikz(r"\{}$&%#_^~"),
        r"\textbackslash{}\{\}\$\&\%\#\_\^{}\~{}"
    );
}

#[test]
fn escape_tikz_keeps_ordinary_text() {
    assert_eq!(escape_tikz("abc 123 (x, y)"), "abc 123 (x, y)");
    assert_eq!(escape_tikz(""), "");
    assert_eq!(escape_tikz("a_b"), r"a\_b");
}

#[test]
fn single_option_renders_without_separator() {
    let options = TikzOptions::new(strings(&["draw"]));
    assert_eq!(options.render_inner(), "draw");
    assert_eq!(options.render_brackets(), "[draw]");
    assert_eq!(options.render_braces(), "{draw}");
}

#[test]
fn labels_are_escaped_or_kept_raw() {
    assert_eq!(TikzLabel::escaped("50%").render(), r"50\%");
    assert_eq!(TikzLabel::raw(r"$\top$".to_string()).render(), r"$\top$");
}

#[test]
fn draw_commands_render_their_names() {
    assert_eq!(TikzDrawCommand::Draw.render(), "draw");
    assert_eq!(TikzDrawCommand::Fill.render(), "fill");
    assert_eq!(TikzDrawCommand::FillDraw.render(), "filldraw");
}

#[test]
fn raw_source_is_indented_line_by_line() {
    let mut out = String::new();
    render_raw_into("% first\n% second", &mut out, 2);
    assert_eq!(out, "  % first\n  % second\n");

    let mut out = String::from("x\n");
    render_raw_into("one\r\ntwo\n", &mut out, 0);
    assert_eq!(out, "x\none\ntwo\n");

    let mut out = String::new();
    render_raw_into("", &mut out, 4);
    assert_eq!(out, "");
}
