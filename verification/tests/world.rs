use packmap::bsp::BspInfo;
use packmap::entities::{parse_entities, Entity};
use packmap::paths::Queue;
use packmap::server::{FileRead, Server};
use packmap::table::StringTable;
use packmap::world::{collect_sky, collect_worldspawn, sky_candidates, text_wad_name};

fn values(queue: &Queue) -> Vec<String> {
    (0..queue.len()).map(|i| queue.value(i).clone()).collect()
}

fn info(has_external_tex: bool) -> BspInfo {
    BspInfo { has_external_tex, entity_text: String::new() }
}

fn server(paths: &[&str]) -> Server {
    let mut files: Server = StringTable::new();
    for path in paths {
        files.insert(path.to_string(), FileRead::Bytes(Vec::new()));
    }
    files
}

fn dirs(names: &[&str]) -> Vec<String> {
    names.iter().map(|name| name.to_string()).collect()
}

fn world_of(entities: &Vec<Entity>, external: bool) -> Vec<String> {
    let mut queue: Queue = StringTable::new();
    collect_worldspawn(&info(external), entities, None, &Vec::new(), &mut queue);
    values(&queue)
}

#[test]
fn texture_archives_are_named_by_file_name() {
    let entities = parse_entities(
        "{\"classname\" \"worldspawn\" \"wad\" \"\\half-life\\valve\\Halflife.wad; C:/x/cs.wad ;;dust.wad\"}",
    );
    assert_eq!(world_of(&entities, true), vec!["cs.wad", "dust.wad", "Halflife.wad"]);
    assert_eq!(world_of(&entities, false), Vec::<String>::new());
}

#[test]
fn a_file_name_is_what_follows_the_last_slash() {
    assert_eq!(text_wad_name("\\a\\b/c.wad"), "c.wad");
    assert_eq!(text_wad_name("c.wad"), "c.wad");
    assert_eq!(text_wad_name("c/"), "");
}

#[test]
fn without_a_world_nothing_is_added() {
    let entities = parse_entities("{\"classname\" \"info\" \"wad\" \"a.wad\" \"sky\" \"des\"}");
    assert_eq!(world_of(&entities, true), Vec::<String>::new());
    let entities = parse_entities("{\"classname\" \"Worldspawn\" \"sky\" \"des\"}");
    assert_eq!(world_of(&entities, true), Vec::<String>::new());
}

#[test]
fn only_the_first_world_counts() {
    let entities = parse_entities(
        "{\"classname\" \"worldspawn\" \"wad\" \"a.wad\"}{\"classname\" \"worldspawn\" \"wad\" \"b.wad\"}",
    );
    assert_eq!(world_of(&entities, true), vec!["a.wad"]);
}

#[test]
fn a_sky_has_six_faces() {
    let entities = parse_entities("{\"classname\" \"worldspawn\" \"skyname\" \" des \"}");
    assert_eq!(
        world_of(&entities, false),
        vec![
            "gfx/env/desbk.tga",
            "gfx/env/desdn.tga",
            "gfx/env/desft.tga",
            "gfx/env/deslf.tga",
            "gfx/env/desrt.tga",
            "gfx/env/desup.tga",
        ]
    );
}

#[test]
fn skyname_comes_before_sky() {
    let both = parse_entities("{\"classname\" \"worldspawn\" \"sky\" \"b\" \"skyname\" \"a\"}");
    assert_eq!(world_of(&both, false)[0], "gfx/env/abk.tga");
    let blank = parse_entities("{\"classname\" \"worldspawn\" \"sky\" \"b\" \"skyname\" \" \"}");
    assert_eq!(world_of(&blank, false)[0], "gfx/env/bbk.tga");
    let none = parse_entities("{\"classname\" \"worldspawn\" \"sky\" \"\"}");
    assert_eq!(world_of(&none, false), Vec::<String>::new());
}

#[test]
fn unicode_white_space_is_trimmed() {
    let entities = parse_entities("{\"classname\" \"worldspawn\" \"sky\" \"\u{3000}des\u{a0}\"}");
    assert_eq!(world_of(&entities, false)[0], "gfx/env/desbk.tga");
}

#[test]
fn a_face_is_taken_as_bmp_where_only_that_is_there() {
    let files = server(&["cstrike/gfx/env/desft.bmp", "cstrike/gfx/env/desbk.bmp", "cstrike/gfx/env/desbk.tga"]);
    let mut queue: Queue = StringTable::new();
    collect_sky("des", Some(&files), &dirs(&["cstrike"]), &mut queue);
    assert_eq!(
        values(&queue),
        vec![
            "gfx/env/desbk.tga",
            "gfx/env/desdn.tga",
            "gfx/env/desft.bmp",
            "gfx/env/deslf.tga",
            "gfx/env/desrt.tga",
            "gfx/env/desup.tga",
        ]
    );
}

#[test]
fn with_nothing_searched_a_server_makes_no_difference() {
    let files = server(&["cstrike/gfx/env/desft.bmp"]);
    let mut with: Queue = StringTable::new();
    let mut without: Queue = StringTable::new();
    collect_sky("des", Some(&files), &Vec::new(), &mut with);
    collect_sky("des", None, &Vec::new(), &mut without);
    assert_eq!(values(&with), values(&without));
}

#[test]
fn the_server_is_asked_for_both_formats() {
    let entities = parse_entities("{\"classname\" \"worldspawn\" \"skyname\" \"des\"}");
    let asked = sky_candidates(&entities);
    assert_eq!(asked.len(), 12);
    assert_eq!(asked[0], "gfx/env/desft.tga");
    assert_eq!(asked[1], "gfx/env/desft.bmp");
    assert_eq!(asked[10], "gfx/env/desdn.tga");
    assert_eq!(asked[11], "gfx/env/desdn.bmp");
    assert_eq!(sky_candidates(&Vec::new()).len(), 0);
}
