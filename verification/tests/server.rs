use packmap::server::{find_on_server, is_known_game_dir, search_places, server_candidates};
use packmap::server::{FileRead, Server};
use packmap::table::StringTable;

fn server(paths: &[&str]) -> Server {
    let mut files: Server = StringTable::new();
    for path in paths {
        files.insert(path.to_string(), FileRead::Bytes(Vec::new()));
    }
    files
}

fn dirs(names: &[&str]) -> Vec<String> {
    names.iter().map(|name| name.to_string()).collect()
}

#[test]
fn four_game_directories_are_known() {
    for name in ["cstrike", "cstrike_downloads", "czero", "czero_downloads"] {
        assert!(is_known_game_dir(name));
    }
    for name in ["", "valve", "Cstrike", "cstrike_", "czero_downloads2"] {
        assert!(!is_known_game_dir(name));
    }
}

#[test]
fn a_file_is_looked_for_in_each_directory() {
    assert_eq!(
        server_candidates("models/gate.mdl", &dirs(&["cstrike_downloads", "cstrike"])),
        vec!["cstrike_downloads/models/gate.mdl", "cstrike/models/gate.mdl"]
    );
    assert_eq!(server_candidates("models/gate.mdl", &Vec::new()), Vec::<String>::new());
}

#[test]
fn a_texture_archive_is_also_looked_for_at_the_top() {
    assert_eq!(
        server_candidates("maps/x/Dust.WAD", &dirs(&["a", "b"])),
        vec!["a/maps/x/Dust.WAD", "a/Dust.WAD", "b/maps/x/Dust.WAD", "b/Dust.WAD"]
    );
    assert_eq!(search_places("x/y.txt", true, &dirs(&["a"])), vec!["a/x/y.txt", "a/y.txt"]);
    assert_eq!(search_places("x/y.wad", false, &dirs(&["a"])), vec!["a/x/y.wad"]);
}

#[test]
fn an_absolute_path_is_the_same_from_everywhere() {
    assert_eq!(
        server_candidates("/x/y.wad", &dirs(&["a", "b"])),
        vec!["/x/y.wad", "a/y.wad", "/x/y.wad", "b/y.wad"]
    );
    assert_eq!(search_places("y.mdl", false, &dirs(&["a/", ""])), vec!["a/y.mdl", "y.mdl"]);
}

#[test]
fn the_first_place_with_a_file_is_taken() {
    let both = dirs(&["cstrike_downloads", "cstrike"]);
    let files = server(&["cstrike/a.mdl", "cstrike_downloads/b.mdl", "cstrike/b.mdl"]);
    assert_eq!(find_on_server("a.mdl", &files, &both), Some("cstrike/a.mdl".to_string()));
    assert_eq!(
        find_on_server("b.mdl", &files, &both),
        Some("cstrike_downloads/b.mdl".to_string())
    );
    assert_eq!(find_on_server("c.mdl", &files, &both), None);
    assert_eq!(find_on_server("a.mdl", &files, &Vec::new()), None);
}

#[test]
fn a_texture_archive_is_found_at_the_top() {
    let files = server(&["cstrike/dust.wad"]);
    assert_eq!(
        find_on_server("maps/dust.wad", &files, &dirs(&["cstrike"])),
        Some("cstrike/dust.wad".to_string())
    );
    assert_eq!(find_on_server("maps/dust.mdl", &files, &dirs(&["cstrike"])), None);
}

#[test]
fn the_case_of_a_path_counts_on_the_server() {
    let files = server(&["cstrike/A.mdl"]);
    assert_eq!(find_on_server("a.mdl", &files, &dirs(&["cstrike"])), None);
}

#[test]
fn an_unreadable_file_is_there_all_the_same() {
    let mut files: Server = StringTable::new();
    files.insert("cstrike/a.mdl".to_string(), FileRead::Failed("denied".to_string()));
    assert_eq!(
        find_on_server("a.mdl", &files, &dirs(&["cstrike"])),
        Some("cstrike/a.mdl".to_string())
    );
}
