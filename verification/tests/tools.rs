use rim_sim::tools::{tag_mask, tool_mask, tool_tag_names, tool_tags};

fn strings(v: &[&str]) -> Vec<String> {
    v.iter().map(|s| s.to_string()).collect()
}

#[test]
fn tool_tags_are_sorted_and_named_once() {
    let lists = vec![strings(&["saw", "axe"]), strings(&[]), strings(&["axe", "hammer"])];
    assert_eq!(tool_tags(&lists).unwrap(), strings(&["axe", "hammer", "saw"]));
    assert_eq!(tool_tags(&[]).unwrap(), Vec::<String>::new());
}

#[test]
fn more_than_sixty_four_tags_is_an_error() {
    let many: Vec<String> = (0..65).map(|i| format!("t{i:02}")).collect();
    let e = tool_tags(&[many.clone()]).unwrap_err();
    let mut sorted = many.clone();
    sorted.sort();
    assert_eq!(e, format!("more than 64 tool tags: {}", sorted.join(", ")));
    assert_eq!(tool_tags(&[many[..64].to_vec()]).unwrap().len(), 64);
}

#[test]
fn masks_set_a_bit_per_tag() {
    let names = strings(&["axe", "hammer", "saw"]);
    assert_eq!(tag_mask(&names, &strings(&["saw"])), 0b100);
    assert_eq!(tag_mask(&names, &strings(&["axe", "saw", "axe"])), 0b101);
    // A tag no tool names sets nothing.
    assert_eq!(tag_mask(&names, &strings(&["drill", "hammer"])), 0b010);
    assert_eq!(tag_mask(&names, &[]), 0);
}

#[test]
fn a_script_mask_refuses_unknown_tags() {
    let names = strings(&["axe", "hammer", "saw"]);
    assert_eq!(tool_mask(&names, &strings(&["hammer", "axe"])), Some(0b011));
    assert_eq!(tool_mask(&names, &strings(&["hammer", "drill"])), None);
    assert_eq!(tool_mask(&names, &[]), Some(0));
}

#[test]
fn mask_names_read_back_in_tag_order() {
    let names = strings(&["axe", "hammer", "saw"]);
    let m = tag_mask(&names, &strings(&["saw", "axe"]));
    assert_eq!(tool_tag_names(&names, m), strings(&["axe", "saw"]));
    assert_eq!(tool_tag_names(&names, 0), Vec::<String>::new());
    // Bits past the names hold nothing.
    assert_eq!(tool_tag_names(&names, 1 << 40 | 0b010), strings(&["hammer"]));
}
