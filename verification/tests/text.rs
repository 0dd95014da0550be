use rim_sim::defs::{home_of, parse_color, CalendarDef, PriorityScaleDef};
use rim_sim::field::Push;
use rim_sim::look::{intern, layer_fields, one_character, parse_rgba, Art, Draw};

#[test]
fn colours_parse_from_hex() {
    assert_eq!(parse_color("#ff8000"), Ok([255, 128, 0]));
    assert_eq!(parse_color("##0a0B0c"), Ok([10, 11, 12]));
    assert_eq!(parse_color("red"), Err("bad color 'red' (want #rrggbb)".to_string()));
    assert!(parse_color("#ff80001").is_err());
    assert!(parse_color("#ff0\u{e9}0").is_err());
}

#[test]
fn colours_take_an_alpha() {
    assert_eq!(parse_rgba("#00000040"), Ok([0, 0, 0, 0x40]));
    assert_eq!(parse_rgba("#ff8000"), Ok([255, 128, 0, 255]));
    assert!(parse_rgba("red").is_err());
    assert_eq!(parse_rgba("#ff0\u{e9}0").unwrap_err(), "bad color '#ff0\u{e9}0' (want #rrggbb or #rrggbbaa)");
}

#[test]
fn ids_name_their_mod() {
    assert_eq!(home_of("core:wall"), "core");
    assert_eq!(home_of("wall"), "");
    assert_eq!(home_of("a:b:c"), "a");
}

#[test]
fn defaults_are_the_documented_ones() {
    let c = CalendarDef::default();
    assert_eq!((c.id.as_str(), c.year_days, c.seasons.len(), c.start_day), ("default", 60, 1, 0));
    assert_eq!(PriorityScaleDef::default().levels, 4);
}

#[test]
fn one_character_is_what_a_player_sees() {
    assert!(one_character("\u{25b2}"));
    assert!(!one_character(""));
    assert!(!one_character("ab"));
    assert!(!one_character(" "));
    assert!(!one_character("\u{200B}"));
    for emoji in [
        "\u{2764}\u{FE0F}",
        "\u{1F1EE}\u{1F1F8}",
        "\u{1F44D}\u{1F3FD}",
        "1\u{FE0F}\u{20E3}",
        "\u{1F468}\u{200D}\u{1F469}\u{200D}\u{1F467}",
    ] {
        assert!(one_character(emoji), "{emoji:?} is one character");
    }
}

#[test]
fn sprites_qualify_to_their_mod() {
    let mut art = Art { sprites: Vec::new(), glyphs: Vec::new(), home: "loom".to_string() };
    assert_eq!(art.sprite("frame"), 0);
    assert_eq!(art.sprite("loom:frame"), 0);
    assert_eq!(art.sprite("core:plank"), 1);
    assert_eq!(art.sprites, ["loom:frame", "core:plank"]);
    let mut list = vec!["a".to_string()];
    assert_eq!(intern(&mut list, "b".to_string()), 1);
    assert_eq!(intern(&mut list, "a".to_string()), 0);
    assert_eq!(list.len(), 2);
}

#[test]
fn pushes_ease_in_linearly() {
    let p = Push { key: "k".into(), from: 0, to: 1000, start: 100, ease: 10, until: None, fading: false };
    assert_eq!(p.value(50), 0);
    assert_eq!(p.value(105), 500);
    assert_eq!(p.value(110), 1000);
    let down = Push { from: 1000, to: -1000, ..p.clone() };
    assert_eq!(down.value(103), 400);
    let now = Push { ease: 0, ..p };
    assert_eq!(now.value(0), 1000);
}

fn given(names: &[&str]) -> Vec<bool> {
    let all = ["x", "y", "w", "h", "r", "width", "min_px", "pulse", "sprite", "tint", "glyph", "size"];
    all.iter().map(|n| names.contains(n)).collect()
}

#[test]
fn layer_fields_apply_by_what_is_drawn() {
    assert_eq!(layer_fields("fill", &given(&["x", "w", "min_px"])), Ok(Draw::Fill));
    assert_eq!(layer_fields("disc", &given(&["r", "pulse"])), Ok(Draw::Disc));
    assert_eq!(layer_fields("glyph", &given(&["glyph", "size"])), Ok(Draw::Glyph));
    assert_eq!(layer_fields("edges", &given(&[])), Ok(Draw::Edges));
    assert_eq!(
        layer_fields("fill", &given(&["r", "sprite"])),
        Err("`r` does not apply to draw = \"fill\"".to_string())
    );
    assert_eq!(
        layer_fields("edges", &given(&["x"])),
        Err("`x` does not apply to draw = \"edges\"".to_string())
    );
    assert_eq!(
        layer_fields("blob", &given(&[])),
        Err("unknown draw 'blob' (want fill, outline, disc, edges, sprite or glyph)".to_string())
    );
}
