use packmap::bsp::BspInfo;
use packmap::collect::{collect_resources, collect_server_resources, companion_files};
use packmap::collect::detail_list_path;
use packmap::entities::parse_entities;
use packmap::pack_map::resources_of;
use packmap::paths::{enqueue, Queue};
use packmap::server::{FileRead, Server};
use packmap::table::StringTable;

const ENTITIES: &str = "{\"classname\" \"worldspawn\" \"skyname\" \"des\" \"wad\" \"c:\\x.wad\"}{\"model\" \"models/gate.mdl\"}";

fn values(queue: &Queue) -> Vec<String> {
    (0..queue.len()).map(|i| queue.value(i).clone()).collect()
}

fn header() -> Vec<u8> {
    let mut data = vec![0u8; 184];
    data[0..4].copy_from_slice(b"IDST");
    data
}

fn info() -> BspInfo {
    BspInfo { has_external_tex: true, entity_text: String::new() }
}

fn files() -> Server {
    let mut files: Server = StringTable::new();
    files.insert("cstrike/models/gate.mdl".to_string(), FileRead::Bytes(header()));
    files.insert(
        "cstrike/maps/de_x_detail.txt".to_string(),
        FileRead::Bytes(b"wall detail/brick 1 1\n".to_vec()),
    );
    files.insert("cstrike/gfx/env/desup.bmp".to_string(), FileRead::Bytes(Vec::new()));
    files
}

#[test]
fn six_files_can_accompany_a_map() {
    assert_eq!(
        companion_files("de_x"),
        vec![
            "maps/de_x.txt",
            "maps/de_x_detail.txt",
            "maps/de_x.nav",
            "maps/de_x.res",
            "overviews/de_x.bmp",
            "overviews/de_x.txt",
        ]
    );
    assert_eq!(detail_list_path("de_x"), "maps/de_x_detail.txt");
}

#[test]
fn a_loose_map_names_its_resources() {
    let mut queue: Queue = StringTable::new();
    collect_resources(
        b"\0wind.wav\0",
        &info(),
        &parse_entities(ENTITIES),
        "de_x",
        None,
        &Vec::new(),
        &mut queue,
    );
    assert_eq!(
        values(&queue),
        vec![
            "gfx/env/desbk.tga",
            "gfx/env/desdn.tga",
            "gfx/env/desft.tga",
            "gfx/env/deslf.tga",
            "gfx/env/desrt.tga",
            "gfx/env/desup.tga",
            "maps/de_x.nav",
            "maps/de_x.res",
            "maps/de_x.txt",
            "maps/de_x_detail.txt",
            "models/gate.mdl",
            "overviews/de_x.bmp",
            "overviews/de_x.txt",
            "sound/wind.wav",
            "x.wad",
        ]
    );
}

#[test]
fn files_on_the_server_add_resources() {
    let dirs = vec!["cstrike".to_string()];
    let queue = resources_of(
        b"",
        &info(),
        &parse_entities(ENTITIES),
        "de_x",
        Some(&files()),
        &dirs,
    );
    assert!(queue.contains_key("models/gatet.mdl"));
    assert!(queue.contains_key("gfx/detail/brick.tga"));
    assert!(queue.contains_key("gfx/env/desup.bmp"));
    assert!(!queue.contains_key("gfx/env/desup.tga"));
    assert_eq!(queue.len(), 16);
}

#[test]
fn other_files_of_the_server_do_not_bear_on_what_is_collected() {
    let dirs = vec!["cstrike".to_string()];
    let entities = parse_entities(ENTITIES);
    let few = resources_of(b"", &info(), &entities, "de_x", Some(&files()), &dirs);
    let mut more_files = files();
    more_files.insert("cstrike/sound/extra.wav".to_string(), FileRead::Bytes(vec![1]));
    more_files.insert("cstrike/maps/other_detail.txt".to_string(), FileRead::Bytes(vec![1]));
    let more = resources_of(b"", &info(), &entities, "de_x", Some(&more_files), &dirs);
    assert_eq!(values(&few), values(&more));
}

#[test]
fn without_directories_the_server_adds_nothing() {
    let entities = parse_entities(ENTITIES);
    let with = resources_of(b"", &info(), &entities, "de_x", Some(&files()), &Vec::new());
    let without = resources_of(b"", &info(), &entities, "de_x", None, &Vec::new());
    assert_eq!(values(&with), values(&without));
}

#[test]
fn what_was_in_the_queue_stays() {
    let mut queue: Queue = StringTable::new();
    enqueue("MAPS/de_x.TXT", &mut queue);
    collect_resources(
        b"",
        &info(),
        &parse_entities(ENTITIES),
        "de_x",
        None,
        &Vec::new(),
        &mut queue,
    );
    assert_eq!(queue.get("maps/de_x.txt").unwrap(), "MAPS/de_x.TXT");
}

#[test]
fn an_unreadable_detail_list_names_nothing() {
    let mut files: Server = StringTable::new();
    files.insert("cstrike/maps/de_x_detail.txt".to_string(), FileRead::Failed("denied".to_string()));
    let mut queue: Queue = StringTable::new();
    collect_server_resources("de_x", Some(&files), &vec!["cstrike".to_string()], &mut queue);
    assert!(queue.is_empty());
}
