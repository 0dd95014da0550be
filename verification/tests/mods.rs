use rim_sim::modloader::{check_api, sort, ModManifest};
use rim_sim::modtest::{closure, tidy, xml};
use rim_sim::rng::mix;
use rim_sim::savetext::{glyph, map_picture, read_picture, section_parts};
use rim_sim::script::{hook_due, hook_timing, migrator_refusal, pow_operator_lines, resolve_require};
use rim_sim::snapshot::{hash_bytes, lock_matches, DefsSection, Header, Remap, Snapshot};
use std::path::PathBuf;

fn manifest(id: &str, depends: &[&str], optional: &[&str], load_after: &[&str]) -> ModManifest {
    ModManifest {
        id: id.to_string(),
        name: id.to_string(),
        version: "1.0.0".to_string(),
        api: "0.6".to_string(),
        ui_api: None,
        description: String::new(),
        depends: depends.iter().map(|s| s.to_string()).collect(),
        optional: optional.iter().map(|s| s.to_string()).collect(),
        load_after: load_after.iter().map(|s| s.to_string()).collect(),
        dir: PathBuf::from(id),
    }
}

fn ids(v: &[ModManifest]) -> Vec<String> {
    v.iter().map(|m| m.id.clone()).collect()
}

#[test]
fn mods_load_after_what_they_depend_on_then_by_id() {
    let mods = vec![
        manifest("zeta", &[], &[], &[]),
        manifest("boars", &["core"], &[], &[]),
        manifest("core", &[], &[], &[]),
        manifest("alpha", &[], &["boars"], &[]),
        manifest("late", &[], &["absent"], &["alpha"]),
    ];
    let out = sort(mods).unwrap();
    assert_eq!(ids(&out), vec!["core", "boars", "alpha", "late", "zeta"]);
}

#[test]
fn two_mods_with_one_id_are_refused() {
    let mods = vec![manifest("core", &[], &[], &[]), manifest("core", &[], &[], &[])];
    assert_eq!(sort(mods).err().unwrap(), "two mods share the id 'core'");
}

#[test]
fn a_missing_dependency_is_named() {
    let mods = vec![manifest("boars", &["core", "wolves"], &[], &[]), manifest("core", &[], &[], &[])];
    assert_eq!(sort(mods).err().unwrap(), "mod 'boars' requires 'wolves', which is not installed");
}

#[test]
fn a_dependency_cycle_names_the_stuck_mods() {
    let mods = vec![
        manifest("core", &[], &[], &[]),
        manifest("b", &["a"], &[], &[]),
        manifest("a", &["b"], &[], &[]),
        manifest("c", &["a"], &[], &[]),
    ];
    assert_eq!(sort(mods).err().unwrap(), "mod dependency cycle among: a, b, c");
}

#[test]
fn api_versions_before_one_must_match_the_minor() {
    let mut m = manifest("core", &[], &[], &[]);
    assert_eq!(check_api(&m), Ok(()));
    m.api = "0.5".to_string();
    assert_eq!(check_api(&m).unwrap_err(), "mod 'core' targets api 0.5 but the engine provides 0.6");
    m.api = "zero.six".to_string();
    assert_eq!(check_api(&m).unwrap_err(), "mod 'core': bad api version 'zero.six'");
    m.api = "1.0".to_string();
    assert!(check_api(&m).is_err());
}

fn fnv(bytes: &[u8]) -> u64 {
    let mut h: u64 = 0xcbf2_9ce4_8422_2325;
    for &b in bytes {
        h = (h ^ b as u64).wrapping_mul(0x100_0000_01b3);
    }
    h
}

#[test]
fn byte_hashes_are_fnv_then_mixed() {
    assert_eq!(hash_bytes(b""), mix(0xcbf2_9ce4_8422_2325));
    assert_eq!(hash_bytes(b"rim"), mix(fnv(b"rim")));
    assert_ne!(hash_bytes(b"ab"), hash_bytes(b"ba"));
}

fn header() -> Header {
    Header {
        format: 1,
        engine: "0.1.0".to_string(),
        api: "0.6".to_string(),
        seed: 7,
        tick: 100,
        mods: vec![("core".to_string(), "1.0.0".to_string())],
    }
}

#[test]
fn a_snapshot_hash_covers_names_and_bytes() {
    let a = Snapshot { header: header(), sections: vec![("engine:map".to_string(), vec![1, 2, 3])] };
    let b = Snapshot { header: header(), sections: vec![("engine:map".to_string(), vec![1, 2, 4])] };
    let c = Snapshot { header: header(), sections: vec![("engine:mop".to_string(), vec![1, 2, 3])] };
    let hb = b"header";
    assert_eq!(a.hash(hb), a.hash(hb));
    assert_ne!(a.hash(hb), b.hash(hb));
    assert_ne!(a.hash(hb), c.hash(hb));
    assert_ne!(a.hash(hb), a.hash(b"other header"));
    let empty = Snapshot { header: header(), sections: vec![] };
    assert_eq!(empty.hash(hb), hash_bytes(hb));
}

#[test]
fn a_lock_matches_the_same_mods_in_order() {
    let loaded = vec![manifest("core", &[], &[], &[]), manifest("boars", &[], &[], &[])];
    let lock = vec![("core".to_string(), "1.0.0".to_string()), ("boars".to_string(), "1.0.0".to_string())];
    assert!(lock_matches(&lock, &loaded));
    let swapped = vec![lock[1].clone(), lock[0].clone()];
    assert!(!lock_matches(&swapped, &loaded));
    let newer = vec![lock[0].clone(), ("boars".to_string(), "1.1.0".to_string())];
    assert!(!lock_matches(&newer, &loaded));
    assert!(!lock_matches(&lock[..1], &loaded));
}

fn table(kinds: &[(&str, &[&str])]) -> DefsSection {
    kinds.iter().map(|(k, ids)| (k.to_string(), ids.iter().map(|s| s.to_string()).collect())).collect()
}

#[test]
fn remapping_follows_qualified_ids() {
    let saved = table(&[("thing", &["core:wall", "core:door", "boars:boar"]), ("terrain", &["core:soil"])]);
    let now = table(&[("terrain", &["core:sand", "core:soil"]), ("thing", &["core:door", "core:wall"])]);
    let r = Remap::new(saved, &now);
    assert_eq!(r.get("thing", 0), Some(1));
    assert_eq!(r.get("thing", 1), Some(0));
    assert_eq!(r.get("thing", 2), None);
    assert_eq!(r.get("thing", 9), None);
    assert_eq!(r.get("terrain", 0), Some(1));
    assert_eq!(r.get("creature", 0), None);
    assert_eq!(r.name("thing", 2), "boars:boar");
    assert_eq!(r.name("thing", 5), "?");
    assert_eq!(r.name("creature", 0), "?");
}

#[test]
fn remapping_the_same_table_is_the_identity() {
    let saved = table(&[("thing", &["core:wall"])]);
    let r = Remap::new(saved.clone(), &saved);
    assert_eq!(r.get("thing", 0), Some(0));
    assert_eq!(r.get("anything", 41), Some(41));
}

#[test]
fn pow_lint_finds_inexact_exponents_outside_strings_and_comments() {
    let src = "x = a ^ b\ny = c ^ 2\n-- a ^ b\ns = \"a ^ b\"\nz = d ^ 0.5 + e ^ 1.5\n--[[ a ^ b\n]] w = f^ 3\nv = g ^ 2.5 ^ h\n";
    assert_eq!(pow_operator_lines(src), vec![1, 5, 8]);
    assert_eq!(pow_operator_lines("t = [==[ ^ ]] ^ ]==] ^ 2"), Vec::<usize>::new());
    assert_eq!(pow_operator_lines("s = 'it\\'s ^'\nq = r ^ 4"), vec![2]);
    assert_eq!(pow_operator_lines(""), Vec::<usize>::new());
    assert_eq!(pow_operator_lines("a = b ^ 22"), vec![1]);
    assert_eq!(pow_operator_lines("a = b ^\t3.0"), Vec::<usize>::new());
}

#[test]
fn require_paths_resolve_within_a_mods_scripts() {
    let from = "core/scripts/ai/storyteller.luau";
    assert_eq!(
        resolve_require(from, "./util"),
        Ok(("core".to_string(), "core/scripts/ai/util".to_string()))
    );
    assert_eq!(
        resolve_require(from, "../events/raid"),
        Ok(("core".to_string(), "core/scripts/events/raid".to_string()))
    );
    assert_eq!(
        resolve_require(from, "@boars/scripts/herd"),
        Ok(("boars".to_string(), "boars/scripts/herd".to_string()))
    );
    assert_eq!(
        resolve_require("core/scripts/main.luau", "../../x").unwrap_err(),
        "require(\"../../x\"): leaves the mod's scripts folder"
    );
    assert_eq!(
        resolve_require(from, "util").unwrap_err(),
        "require(\"util\"): use \"@<mod>/scripts/<name>\", or \"./<name>\" within your own mod"
    );
    assert_eq!(
        resolve_require(from, "@boars/data/herd").unwrap_err(),
        "require(\"@boars/data/herd\"): sim modules live in a mod's scripts folder: \"@<mod>/scripts/<name>\""
    );
    assert!(resolve_require(from, "@boars").is_err());
}

#[test]
fn glyphs_run_through_ascii_then_latin_letters() {
    assert_eq!(glyph(0), Some('a'));
    assert_eq!(glyph(25), Some('z'));
    assert_eq!(glyph(26), Some('A'));
    assert_eq!(glyph(61), Some('9'));
    assert_eq!(glyph(62), Some('\u{c0}'));
    // U+00D7 is the multiplication sign: not a letter.
    assert_eq!(glyph(62 + 0x17), None);
}

#[test]
fn sections_live_under_their_owner() {
    assert_eq!(section_parts("engine:pawn"), ("engine".to_string(), "pawn.json".to_string()));
    assert_eq!(section_parts("plain"), ("_".to_string(), "plain.json".to_string()));
    assert_eq!(section_parts(":odd"), ("_".to_string(), "odd.json".to_string()));
    assert_eq!(section_parts("a:b:c"), ("a".to_string(), "b:c.json".to_string()));
}

#[test]
fn xml_escapes_markup() {
    assert_eq!(xml("a < b && c > \"d\""), "a &lt; b &amp;&amp; c &gt; &quot;d&quot;");
    assert_eq!(xml("plain"), "plain");
}

#[test]
fn a_mods_closure_is_itself_and_all_it_depends_on() {
    let all = vec![
        manifest("raids", &["core", "weapons"], &["boars"], &[]),
        manifest("weapons", &["core", "metal"], &[], &[]),
        manifest("core", &[], &[], &[]),
        manifest("boars", &["core"], &[], &[]),
        manifest("metal", &["weapons"], &[], &[]),
    ];
    assert_eq!(closure(&all, "raids"), vec!["core", "metal", "raids", "weapons"]);
    assert_eq!(closure(&all, "core"), vec!["core"]);
    assert_eq!(closure(&all, "ghost"), vec!["ghost"]);
}

#[test]
fn errors_keep_only_the_frames_in_test_files() {
    let err = "runtime error: core/tests/a.luau:3: boom\nstack traceback:\n\t[C]: in function 'error'\n\tcore/tests/a.luau:3: in function 'f'\n\tcore/tests/a.luau:9\r\n\tcore/scripts/x.luau:1\n";
    assert_eq!(
        tidy(err),
        "core/tests/a.luau:3: boom\n  core/tests/a.luau:3: in function 'f'\n  core/tests/a.luau:9"
    );
    let one = "runtime error: boom\nstack traceback:\n\tcore/tests/a.luau:3\n\tcore/scripts/x.luau:1";
    assert_eq!(tidy(one), "boom");
    assert_eq!(tidy("runtime error: plain"), "plain");
    assert_eq!(tidy("no prefix\nstack traceback:"), "no prefix");
    assert_eq!(tidy(""), "");
}

#[test]
fn the_map_picture_reads_back() {
    let terrain = vec![0u16, 1, 2, 1, 0];
    let (rows, glyphs) = map_picture(&terrain, 2, 3).unwrap();
    assert_eq!(rows, vec!["ab", "cb", "a"]);
    assert_eq!(glyphs, vec!['a', 'b', 'c']);
    let names: Vec<String> = vec!["core:soil".into(), "core:sand".into(), "core:water".into()];
    let legend: Vec<(char, String)> = glyphs.iter().copied().zip(names.iter().cloned()).collect();
    assert_eq!(read_picture(&legend, &rows, &names), Ok(terrain));
    assert_eq!(map_picture(&[7, 0], 0, 1).unwrap().0, vec!["?", "a"]);
    assert_eq!(map_picture(&[], 4, 1).unwrap().0, Vec::<String>::new());
}

#[test]
fn a_bad_map_picture_says_where() {
    let names: Vec<String> = vec!["core:soil".into()];
    let legend = vec![('a', "core:soil".to_string()), ('z', "core:lava".to_string())];
    let rows = vec!["aa".to_string(), "ax".to_string()];
    assert_eq!(
        read_picture(&legend, &rows, &names),
        Err("engine:map: x at (1, 1) isn't in the legend".to_string())
    );
    let rows = vec!["az".to_string()];
    assert_eq!(read_picture(&legend, &rows, &names), Err("engine:map: no terrain core:lava".to_string()));
    assert_eq!(map_picture(&[], 1, 100), Err("too many terrains to draw".to_string()));
}

#[test]
fn def_ids_belong_to_their_mod() {
    assert_eq!(rim_sim::modloader::own_def_id("core", "core/defs/a.toml", "thing", "wall"), Ok("core:wall".to_string()));
    assert_eq!(rim_sim::modloader::own_def_id("core", "core/defs/a.toml", "thing", "core:wall"), Ok("core:wall".to_string()));
    assert_eq!(
        rim_sim::modloader::own_def_id("farm", "farm/defs/b.toml", "thing", "core:wall"),
        Err("farm/defs/b.toml: [[thing]] id 'core:wall' is in mod 'core's namespace; a mod defines its own ids (id = \"wall\"), and changes another mod's with a [[patch]]".to_string())
    );
}

#[test]
fn hooks_are_staggered_and_run_every_interval() {
    assert_eq!(hook_timing(0, 10), (10, 0));
    assert_eq!(hook_timing(1, 10), (10, 7));
    assert_eq!(hook_timing(2, 100), (100, 74));
    // An interval of zero runs every tick.
    assert_eq!(hook_timing(3, 0), (1, 0));
    let (interval, phase) = hook_timing(1, 10);
    let due: Vec<u64> = (0..30).filter(|&t| hook_due(t, phase, interval)).collect();
    assert_eq!(due, vec![3, 13, 23]);
}

#[test]
fn on_migrate_is_registered_once_at_load_time() {
    assert_eq!(migrator_refusal("weather", false, false), None);
    assert_eq!(
        migrator_refusal("weather", true, false).as_deref(),
        Some("mod 'weather': register on_migrate at load time")
    );
    assert_eq!(migrator_refusal("weather", false, true).as_deref(), Some("mod 'weather' registered on_migrate twice"));
    assert_eq!(
        migrator_refusal("weather", true, true).as_deref(),
        Some("mod 'weather': register on_migrate at load time")
    );
}
