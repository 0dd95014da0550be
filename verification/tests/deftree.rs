use rim_sim::deftree::{
    add_defs, add_file, apply_patch, apply_patches, edit_list, group_file, is_builtin_kind, list_op, merge_fields, patch_aim,
    read_def_file, DefEntry, DefTree, PatchNote, check_fields, declare_kinds, KindDecl, one_of_each,
};

fn text(s: &str) -> DefTree {
    DefTree::Str(s.to_string())
}

fn fields(t: DefTree) -> Vec<(String, DefTree)> {
    match t {
        DefTree::Table(f) => f,
        _ => panic!("not a table"),
    }
}

fn field<'a>(f: &'a [(String, DefTree)], k: &str) -> &'a DefTree {
    &f.iter().find(|(n, _)| n == k).unwrap().1
}

#[test]
fn a_def_file_reads_as_a_table() {
    let t = read_def_file("core/defs/a.toml", "[[thing]]\nid = \"wall\"\nhp = 10\nspeed = 1.5\nsolid = true\n").unwrap();
    let f = fields(t);
    assert_eq!(f.len(), 1);
    assert_eq!(f[0].0, "thing");
    match &f[0].1 {
        DefTree::List(items) => {
            assert_eq!(items.len(), 1);
            let e = match &items[0] {
                DefTree::Table(e) => e,
                _ => panic!("not a table"),
            };
            assert!(matches!(field(e, "id"), DefTree::Str(s) if s == "wall"));
            assert!(matches!(field(e, "hp"), DefTree::Int(10)));
            assert!(matches!(field(e, "speed"), DefTree::Float(s) if s == "1.5"));
            assert!(matches!(field(e, "solid"), DefTree::Bool(true)));
        }
        _ => panic!("not a list"),
    }
    let e = read_def_file("core/defs/a.toml", "x = [").unwrap_err();
    assert!(e.starts_with("core/defs/a.toml: "));
}

#[test]
fn set_merges_tables_and_replaces_the_rest() {
    let dst = fields(read_def_file("a", "hp = 10\nbuild = { work = 5, cost = 3 }\nharvest = [{ item = \"wood\", n = 1 }]\ntags = [1, 2]\n").unwrap());
    let src = fields(read_def_file("b", "hp = 20\nbuild = { work = 7 }\nharvest = { n = 4 }\ntags = { a = 1 }\nnew = \"x\"\n").unwrap());
    let out = merge_fields(dst, &src);
    assert!(matches!(field(&out, "hp"), DefTree::Int(20)));
    let b = match field(&out, "build") {
        DefTree::Table(b) => b,
        _ => panic!(),
    };
    assert!(matches!(field(b, "work"), DefTree::Int(7)));
    assert!(matches!(field(b, "cost"), DefTree::Int(3)));
    match field(&out, "harvest") {
        DefTree::List(l) => {
            assert_eq!(l.len(), 1);
            let h = match &l[0] {
                DefTree::Table(h) => h,
                _ => panic!(),
            };
            assert!(matches!(field(h, "n"), DefTree::Int(4)));
            assert!(matches!(field(h, "item"), DefTree::Str(s) if s == "wood"));
        }
        _ => panic!(),
    }
    // A list of other than tables is replaced by the table.
    assert!(matches!(field(&out, "tags"), DefTree::Table(_)));
    assert!(matches!(field(&out, "new"), DefTree::Str(s) if s == "x"));
    // A table set on a list of two tables changes nothing.
    let dst = fields(read_def_file("a", "harvest = [{ n = 1 }, { n = 2 }]\n").unwrap());
    let src = fields(read_def_file("b", "harvest = { n = 9 }\n").unwrap());
    let out = merge_fields(dst, &src);
    match field(&out, "harvest") {
        DefTree::List(l) => assert_eq!(l.len(), 2),
        _ => panic!(),
    }
}

fn list(items: Vec<DefTree>) -> DefTree {
    DefTree::List(items)
}

fn entry(id: &str) -> DefTree {
    DefTree::Table(vec![("id".to_string(), text(id)), ("hp".to_string(), DefTree::Int(1))])
}

#[test]
fn defs_take_their_mods_ids() {
    let mut es: Vec<DefEntry> = Vec::new();
    add_defs(&mut es, "core", "core/defs/a.toml", "thing", "thing", list(vec![entry("wall"), entry("core:door")])).unwrap();
    assert_eq!(es.len(), 2);
    assert_eq!(es[0].id, "core:wall");
    assert_eq!(es[1].id, "core:door");
    assert_eq!(es[0].kind, "thing");
    assert_eq!(es[0].origin, "core/defs/a.toml");
    assert!(!es[0].removed);
    assert!(matches!(field(&es[0].value, "id"), DefTree::Str(s) if s == "core:wall"));
    // The same id in another kind is another def.
    add_defs(&mut es, "core", "core/defs/b.toml", "terrain", "terrain", list(vec![entry("wall")])).unwrap();
    assert_eq!(es.len(), 3);
}

#[test]
fn def_errors() {
    let mut es: Vec<DefEntry> = Vec::new();
    add_defs(&mut es, "core", "core/defs/a.toml", "thing", "thing", list(vec![entry("wall")])).unwrap();
    assert_eq!(
        add_defs(&mut es, "more", "more/defs/x.toml", "thing", "thing", list(vec![entry("core:wall")])),
        Err("more/defs/x.toml: [[thing]] id 'core:wall' is in mod 'core's namespace; a mod defines its own ids (id = \"wall\"), and changes another mod's with a [[patch]]".to_string())
    );
    assert_eq!(
        add_defs(&mut es, "core", "core/defs/b.toml", "thing", "thing", list(vec![entry("wall")])),
        Err("core/defs/b.toml: thing/core:wall is already defined by core/defs/a.toml \u{2014} use a [[patch]] to change it".to_string())
    );
    assert_eq!(
        add_defs(&mut es, "core", "core/defs/b.toml", "thing", "thing", text("x")),
        Err("core/defs/b.toml: 'thing' must be an array of tables ([[thing]])".to_string())
    );
    assert_eq!(
        add_defs(&mut es, "core", "core/defs/b.toml", "thing", "thing", list(vec![DefTree::Int(3)])),
        Err("core/defs/b.toml: 'thing' entries must be tables".to_string())
    );
    assert_eq!(
        add_defs(&mut es, "core", "core/defs/b.toml", "thing", "thing", list(vec![DefTree::Table(vec![("hp".to_string(), DefTree::Int(1))])])),
        Err("core/defs/b.toml: a [[thing]] entry has no id".to_string())
    );
}

fn doc(s: &str) -> Vec<(String, DefTree)> {
    fields(read_def_file("t", s).unwrap())
}

fn ints(t: &DefTree) -> Vec<i64> {
    match t {
        DefTree::List(l) => l
            .iter()
            .map(|x| match x {
                DefTree::Int(i) => *i,
                _ => panic!("not an int"),
            })
            .collect(),
        _ => panic!("not a list"),
    }
}

#[test]
fn append_and_remove_reach_into_lists() {
    let dst = doc("tags = [1, 2, 3, 2]\nbuild = { cost = [1] }\n");
    let (out, notes) = list_op(dst, &doc("tags = [4]\nbuild = { cost = [5] }\nfresh = [6]\n"), "thing/core:wall", "m/defs/p.toml", true).unwrap();
    assert_eq!(ints(field(&out, "tags")), vec![1, 2, 3, 2, 4]);
    let b = match field(&out, "build") {
        DefTree::Table(b) => b,
        _ => panic!(),
    };
    assert_eq!(ints(field(b, "cost")), vec![1, 5]);
    assert_eq!(ints(field(&out, "fresh")), vec![6]);
    assert!(notes.is_empty());
    let (out, notes) = list_op(out, &doc("tags = [2, 9]\n"), "thing/core:wall", "m/defs/p.toml", false).unwrap();
    assert_eq!(ints(field(&out, "tags")), vec![1, 3, 4]);
    assert_eq!(notes.len(), 1);
    assert_eq!(notes[0].0, "thing/core:wall.tags");
    assert!(matches!(notes[0].1, DefTree::Int(9)));
    // A lone table counts as a list of one.
    let (out, _) = list_op(doc("harvest = { item = \"wood\" }\n"), &doc("harvest = [{ item = \"wood\" }]\n"), "x", "o", false).unwrap();
    match field(&out, "harvest") {
        DefTree::List(l) => assert!(l.is_empty()),
        _ => panic!(),
    }
    assert_eq!(
        list_op(doc("tags = 3\n"), &doc("tags = [1]\n"), "thing/a:b", "o", true).unwrap_err(),
        "o: can't append to thing/a:b.tags: it isn't a list"
    );
    assert_eq!(
        list_op(doc("build = 3\n"), &doc("build = { cost = [1] }\n"), "thing/a:b", "o", false).unwrap_err(),
        "o: can't remove inside thing/a:b.build: it isn't a table"
    );
    assert_eq!(
        list_op(doc(""), &doc("tags = 1\n"), "thing/a:b", "o", true).unwrap_err(),
        "o: append thing/a:b.tags: give a list of elements"
    );
}

#[test]
fn edits_change_matching_tables() {
    let dst = doc("build = { cost = [{ item = \"wood\", n = 1 }, { item = \"stone\", n = 2 }] }\n");
    let ed = doc("list = \"build.cost\"\nmatch = { item = \"stone\" }\nset = { n = 5 }\n");
    let (out, hit) = edit_list(dst, &ed, "o", "thing/a:b").unwrap();
    assert!(hit);
    let b = match field(&out, "build") {
        DefTree::Table(b) => b,
        _ => panic!(),
    };
    match field(b, "cost") {
        DefTree::List(l) => {
            let ns: Vec<i64> = l
                .iter()
                .map(|t| match t {
                    DefTree::Table(t) => match field(t, "n") {
                        DefTree::Int(i) => *i,
                        _ => panic!(),
                    },
                    _ => panic!(),
                })
                .collect();
            assert_eq!(ns, vec![1, 5]);
        }
        _ => panic!(),
    }
    let (_, hit) = edit_list(out, &doc("list = \"build.cost\"\nmatch = { item = \"iron\" }\nset = { n = 5 }\n"), "o", "t").unwrap();
    assert!(!hit);
    assert_eq!(
        edit_list(doc("a = 1\n"), &doc("list = \"a\"\nmatch = {}\nset = {}\n"), "o", "thing/x:y").unwrap_err(),
        "o: edit: thing/x:y.a isn't a list"
    );
    assert_eq!(
        edit_list(doc(""), &doc("list = \"a\"\nmatch = {}\nset = {}\nwhat = 1\n"), "o", "thing/x:y").unwrap_err(),
        "o: edit on thing/x:y has an unknown key 'what' (list, match, set)"
    );
    assert_eq!(edit_list(doc(""), &doc("match = {}\n"), "o", "t").unwrap_err(), "o: edit needs list = \"path.to.list\"");
    assert_eq!(
        edit_list(doc(""), &doc("list = \"a.b\"\nset = {}\n"), "o", "t").unwrap_err(),
        "o: edit of a.b needs match = { key = value }"
    );
    assert_eq!(
        edit_list(doc(""), &doc("list = \"a.b\"\nmatch = {}\n"), "o", "t").unwrap_err(),
        "o: edit of a.b needs set = { ... }"
    );
}

#[test]
fn a_patch_sets_edits_removes_and_appends() {
    let e = DefEntry {
        kind: "thing".to_string(),
        id: "core:wall".to_string(),
        value: doc("id = \"core:wall\"\nhp = 10\ntags = [1, 2]\n"),
        origin: "core/defs/a.toml".to_string(),
        removed: false,
    };
    let p = doc("target = \"thing/wall\"\nset = { hp = 12 }\nremove = { tags = [1, 7] }\nappend = { tags = [3] }\n");
    let (e, notes, missed) = apply_patch(e, &p, "more/defs/p.toml", "thing/core:wall").unwrap();
    assert!(matches!(field(&e.value, "hp"), DefTree::Int(12)));
    assert_eq!(ints(field(&e.value, "tags")), vec![2, 3]);
    assert_eq!(notes.len(), 1);
    assert_eq!(notes[0].0, "thing/core:wall.tags");
    assert!(missed.is_empty());
    assert!(!e.removed);
    assert_eq!(e.id, "core:wall");
    let (e, _, _) = apply_patch(e, &doc("target = \"thing/wall\"\nremove = true\n"), "o", "thing/core:wall").unwrap();
    assert!(e.removed);
    let bad = apply_patch(e, &doc("target = \"x\"\nsett = { hp = 1 }\n"), "o", "thing/core:wall");
    assert_eq!(bad.unwrap_err(), "o: patch on thing/core:wall has an unknown key 'sett' (one of target, set, remove, append, edit)");
}

#[test]
fn a_file_groups_its_lists() {
    let kinds = vec!["weather:type".to_string(), "other:type".to_string()];
    let d = doc("[[thing]]\nid = \"a\"\n[[weather.type]]\nid = \"rain\"\n[[weather.kind2]]\nid = \"x\"\n[[kind]]\nid = \"k\"\n");
    let (groups, warnings) = group_file("m/defs/f.toml", d, &kinds);
    let keys: Vec<&str> = groups.iter().map(|(k, _)| k.as_str()).collect();
    assert_eq!(keys, vec!["thing", "weather:type"]);
    assert_eq!(warnings, vec!["m/defs/f.toml: unknown def kind 'weather.kind2' ignored".to_string()]);
    assert!(is_builtin_kind("thing"));
    assert!(!is_builtin_kind("weather"));
}

#[test]
fn a_file_adds_defs_and_keeps_patches() {
    let kinds = vec!["weather:type".to_string(), "other:type".to_string()];
    let mut es: Vec<DefEntry> = Vec::new();
    let mut ps: Vec<(String, Vec<(String, DefTree)>)> = Vec::new();
    let d = doc("[[thing]]\nid = \"wall\"\n[[type]]\nid = \"x\"\n[[patch]]\ntarget = \"thing/wall\"\nset = { hp = 1 }\n");
    let (groups, _) = group_file("m/defs/f.toml", d, &kinds);
    let ws = add_file(&mut es, &mut ps, "m", "m/defs/f.toml", groups, &kinds).unwrap();
    assert_eq!(es.len(), 1);
    assert_eq!(es[0].id, "m:wall");
    assert_eq!(ps.len(), 1);
    assert_eq!(ps[0].0, "m/defs/f.toml");
    assert_eq!(
        ws,
        vec!["m/defs/f.toml: unknown def kind 'type' ignored (did you mean [[weather.type]] or [[other.type]]?)".to_string()]
    );
    // A mod's own kind is named by its bare name.
    let (groups, _) = group_file("weather/defs/t.toml", doc("[[type]]\nid = \"rain\"\n"), &kinds);
    add_file(&mut es, &mut ps, "weather", "weather/defs/t.toml", groups, &kinds).unwrap();
    assert_eq!(es[1].kind, "weather:type");
    assert_eq!(es[1].id, "weather:rain");
    let (groups, _) = group_file("m/defs/g.toml", doc("thing = 3\n"), &kinds);
    assert_eq!(
        add_file(&mut es, &mut ps, "m", "m/defs/g.toml", groups, &kinds).unwrap_err(),
        "m/defs/g.toml: 'thing' must be an array of tables ([[thing]])"
    );
}

#[test]
fn patches_find_their_defs() {
    let kinds: Vec<String> = Vec::new();
    let mut es: Vec<DefEntry> = Vec::new();
    add_defs(&mut es, "core", "core/defs/a.toml", "thing", "thing", list(vec![entry("wall")])).unwrap();
    let p = doc("target = \"thing/core:wall\"\n");
    assert_eq!(patch_aim(&es, "more", "o", &p, &kinds), Ok((Some(0), "thing/core:wall".to_string())));
    assert_eq!(patch_aim(&es, "core", "o", &doc("target = \"thing/wall\"\n"), &kinds), Ok((Some(0), "thing/core:wall".to_string())));
    assert_eq!(patch_aim(&es, "more", "o", &doc("target = \"thing/core:door\"\n"), &kinds), Ok((None, "thing/core:door".to_string())));
    assert_eq!(
        patch_aim(&es, "more", "o", &doc("target = \"thing/wall\"\n"), &kinds),
        Err("o: patch target thing/wall: that's another mod's def, so name it with its prefix: target = \"thing/core:wall\"".to_string())
    );
    assert_eq!(patch_aim(&es, "more", "o", &doc("set = {}\n"), &kinds), Err("o: patch has no 'target' (\"kind/id\")".to_string()));
    assert_eq!(
        patch_aim(&es, "more", "o", &doc("target = \"wall\"\n"), &kinds),
        Err("o: patch target 'wall' must look like kind/id".to_string())
    );
}

#[test]
fn a_mods_patches_apply_in_turn() {
    let kinds: Vec<String> = Vec::new();
    let mut es: Vec<DefEntry> = Vec::new();
    add_defs(&mut es, "core", "core/defs/a.toml", "thing", "thing", list(vec![entry("wall")])).unwrap();
    let patches = vec![
        ("more/defs/p.toml".to_string(), doc("target = \"thing/core:wall\"\nset = { hp = 4 }\n")),
        ("more/defs/p.toml".to_string(), doc("target = \"thing/core:door\"\nset = { hp = 4 }\n")),
        ("more/defs/q.toml".to_string(), doc("target = \"thing/core:wall\"\nset = { hp = 5 }\nremove = { tags = [1] }\n")),
    ];
    let notes = apply_patches(&mut es, "more", &patches, &kinds).unwrap();
    assert!(matches!(field(&es[0].value, "hp"), DefTree::Int(5)));
    assert_eq!(notes.len(), 2);
    assert!(matches!(&notes[0], PatchNote::Skipped { origin, target } if origin == "more/defs/p.toml" && target == "thing/core:door"));
    assert!(matches!(&notes[1], PatchNote::NothingRemoved { path, .. } if path == "thing/core:wall.tags"));
}

fn kind_list(s: &str) -> DefTree {
    let f = doc(s);
    match f.into_iter().find(|(k, _)| k == "kind") {
        Some((_, v)) => v,
        None => panic!("no kind list"),
    }
}

#[test]
fn mods_declare_kinds() {
    let mut kinds: Vec<KindDecl> = Vec::new();
    let v = kind_list("[[kind]]\nid = \"type\"\nfields = { speed = \"int\", name = { type = \"string\", default = \"x\" }, any = {} }\n[[kind]]\nid = \"weather:gust\"\n");
    declare_kinds(&mut kinds, "weather", "weather/defs/k.toml", &v).unwrap();
    assert_eq!(kinds.len(), 2);
    assert_eq!(kinds[0].id, "weather:type");
    assert_eq!(kinds[1].id, "weather:gust");
    assert!(kinds[1].fields.is_none());
    let f = kinds[0].fields.as_ref().unwrap();
    let names: Vec<(&str, &str)> = f.iter().map(|(n, t, _)| (n.as_str(), t.as_str())).collect();
    assert_eq!(names, vec![("any", "any"), ("name", "string"), ("speed", "int")]);
    assert!(matches!(&f[1].2, Some(DefTree::Str(s)) if s == "x"));
    let o = "weather/defs/k.toml";
    assert_eq!(
        declare_kinds(&mut kinds, "weather", o, &kind_list("[[kind]]\nid = \"type\"\n")),
        Err("weather/defs/k.toml: kind weather:type is declared twice".to_string())
    );
    assert_eq!(
        declare_kinds(&mut kinds, "weather", o, &kind_list("[[kind]]\nid = \"thing\"\n")),
        Err("weather/defs/k.toml: [[kind]] 'thing' is a built-in kind's name; pick another".to_string())
    );
    assert_eq!(
        declare_kinds(&mut kinds, "weather", o, &kind_list("[[kind]]\nid = \"core:x\"\n")),
        Err("weather/defs/k.toml: [[kind]] 'core:x': a mod declares kinds in its own namespace".to_string())
    );
    assert_eq!(
        declare_kinds(&mut kinds, "weather", o, &kind_list("[[kind]]\nid = \"y\"\nfields = { a = \"text\" }\n")),
        Err("weather/defs/k.toml: kind weather:y, field 'a': unknown type 'text' (one of string, int, float, bool, table, list, any)".to_string())
    );
    assert_eq!(
        declare_kinds(&mut kinds, "weather", o, &kind_list("[[kind]]\nid = \"y\"\nwhat = 1\n")),
        Err("weather/defs/k.toml: [[kind]] has an unknown key 'what' (id, fields)".to_string())
    );
    assert_eq!(declare_kinds(&mut kinds, "weather", o, &text("x")), Err("weather/defs/k.toml: 'kind' must be an array of tables ([[kind]])".to_string()));
}

#[test]
fn declared_fields_are_checked() {
    let mut kinds: Vec<KindDecl> = Vec::new();
    let v = kind_list("[[kind]]\nid = \"type\"\nfields = { speed = \"float\", name = { type = \"string\", default = \"x\" } }\n");
    declare_kinds(&mut kinds, "weather", "w", &v).unwrap();
    let (t, ws) = check_fields(&kinds[0], doc("id = \"a\"\nspeed = 2\nodd = true\n"), "ctx").unwrap();
    assert!(matches!(field(&t, "name"), DefTree::Str(s) if s == "x"));
    assert_eq!(ws, vec!["ctx: `odd` isn't a field of this kind (ignored by its schema)".to_string()]);
    assert_eq!(check_fields(&kinds[0], doc("speed = \"fast\"\n"), "ctx").unwrap_err(), "ctx: `speed` should be float, not string");
    assert_eq!(check_fields(&kinds[0], doc("name = \"n\"\n"), "ctx").unwrap_err(), "ctx: missing field `speed` (float)");
}

fn listed(kind: &str, id: &str, origin: &str, removed: bool) -> DefEntry {
    DefEntry { kind: kind.to_string(), id: id.to_string(), value: Vec::new(), origin: origin.to_string(), removed }
}

#[test]
fn there_is_one_calendar_one_sky_and_one_priority_scale() {
    let mut es = vec![
        listed("calendar", "core:year", "core/defs/a.toml", false),
        listed("thing", "core:wall", "core/defs/a.toml", false),
        listed("thing", "core:door", "core/defs/a.toml", false),
        listed("sky", "core:sky", "core/defs/a.toml", false),
        listed("calendar", "seasons:year", "seasons/defs/c.toml", true),
    ];
    assert_eq!(one_of_each(&es), Ok(()));
    es.push(listed("calendar", "moons:year", "moons/defs/m.toml", false));
    es.push(listed("sky", "moons:sky", "moons/defs/m.toml", false));
    assert_eq!(
        one_of_each(&es),
        Err("calendar/moons:year (from moons/defs/m.toml): only one [[calendar]] may exist; patch calendar/core:year instead"
            .to_string())
    );
    es[0].removed = true;
    assert_eq!(
        one_of_each(&es),
        Err("sky/moons:sky (from moons/defs/m.toml): only one [[sky]] may exist; patch sky/core:sky instead".to_string())
    );
}
