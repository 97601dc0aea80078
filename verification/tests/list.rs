use packmap::clock::{stamp_at, timestamp, FOUR_DIGIT_YEARS_END};
use packmap::list::{check_listed, companion_names, list_file_name, list_summary};
use packmap::list::{needed_resources, resource_list, resource_text, vanilla_files};
use packmap::list::{write_resource_list, Names};
use packmap::paths::{enqueue, Queue};
use packmap::server::{FileRead, Server};
use packmap::table::StringTable;
use packmap::text::text_lines;

fn queue(paths: &[&str]) -> Queue {
    let mut queue: Queue = StringTable::new();
    for path in paths {
        enqueue(path, &mut queue);
    }
    queue
}

fn server(paths: &[&str]) -> Server {
    let mut files: Server = StringTable::new();
    for path in paths {
        files.insert(path.to_string(), FileRead::Bytes(Vec::new()));
    }
    files
}

fn dirs() -> Vec<String> {
    vec!["cstrike".to_string()]
}

fn sample() -> Queue {
    queue(&[
        "maps/De_X.txt",
        "maps/De_X_detail.txt",
        "maps/De_X.nav",
        "maps/De_X.res",
        "overviews/De_X.bmp",
        "overviews/De_X.txt",
        "sound/Wind.wav",
        "models/gate.mdl",
        "halflife.wad",
        "maps/other.nav",
    ])
}

#[test]
fn vanilla_files_are_given_one_to_a_line() {
    let names = vanilla_files("a.wad\r\nb.wad\n\nc d.wad\na.wad");
    assert_eq!(names.len(), 3);
    for name in ["a.wad", "b.wad", "c d.wad"] {
        assert!(names.contains_key(name));
    }
    assert!(!names.contains_key(""));
    assert!(!names.contains_key("A.wad"));
    assert!(vanilla_files("").is_empty());
}

#[test]
fn companions_are_known_by_lowercase_form() {
    let names = companion_names("De_X");
    assert_eq!(names.len(), 6);
    assert!(names.contains_key("maps/de_x_detail.txt"));
    assert!(names.contains_key("overviews/de_x.bmp"));
    assert!(!names.contains_key("maps/De_X.txt"));
}

#[test]
fn a_loose_list_leaves_out_companions_and_vanilla_files() {
    let vanilla = vanilla_files("halflife.wad\n");
    let needed = needed_resources("De_X", &sample(), &vanilla, None, &Vec::new());
    assert_eq!(needed, vec!["maps/other.nav", "models/gate.mdl", "sound/Wind.wav"]);
}

#[test]
fn a_list_with_a_server_names_what_the_server_has() {
    let vanilla = vanilla_files("halflife.wad\n");
    let files = server(&[
        "cstrike/maps/De_X.txt",
        "cstrike/maps/De_X.nav",
        "cstrike/maps/De_X.res",
        "cstrike/halflife.wad",
        "cstrike/sound/Wind.wav",
    ]);
    let needed = needed_resources("De_X", &sample(), &vanilla, Some(&files), &dirs());
    assert_eq!(needed, vec!["maps/De_X.txt", "sound/Wind.wav"]);
}

#[test]
fn lists_with_and_without_a_server_agree_but_for_companions() {
    let vanilla = vanilla_files("halflife.wad\n");
    let files = server(&[
        "cstrike/maps/De_X.txt",
        "cstrike/maps/De_X.nav",
        "cstrike/maps/other.nav",
        "cstrike/sound/Wind.wav",
    ]);
    let with = needed_resources("De_X", &sample(), &vanilla, Some(&files), &dirs());
    let without = needed_resources("De_X", &sample(), &vanilla, None, &Vec::new());
    assert_eq!(with, vec!["maps/De_X.txt", "maps/other.nav", "sound/Wind.wav"]);
    assert_eq!(without, vec!["maps/other.nav", "models/gate.mdl", "sound/Wind.wav"]);
}

#[test]
fn an_unreadable_file_is_listed() {
    let mut files: Server = StringTable::new();
    files.insert("cstrike/sound/Wind.wav".to_string(), FileRead::Failed("denied".to_string()));
    let needed = needed_resources("De_X", &sample(), &vanilla_files(""), Some(&files), &dirs());
    assert_eq!(needed, vec!["sound/Wind.wav"]);
}

#[test]
fn a_path_is_listed_by_its_key() {
    let vanilla: Names = vanilla_files("v\n");
    assert!(check_listed("k", "nav", "res", &vanilla, true));
    assert!(!check_listed("k", "nav", "res", &vanilla, false));
    assert!(!check_listed("v", "nav", "res", &vanilla, true));
    assert!(!check_listed("nav", "nav", "res", &vanilla, true));
    assert!(!check_listed("res", "nav", "res", &vanilla, true));
}

#[test]
fn the_text_of_a_list_begins_with_two_comments() {
    let rels = vec!["a.wad".to_string(), "b.mdl".to_string()];
    assert_eq!(
        resource_text("de_x", "1970-01-01T00:00:00Z", &rels),
        "// resources for de_x.bsp\n// generated by packmap 1970-01-01T00:00:00Z\na.wad\nb.mdl\n"
    );
    assert_eq!(
        resource_text("de_x", "now", &Vec::new()),
        "// resources for de_x.bsp\n// generated by packmap now\n"
    );
}

#[test]
fn a_list_is_read_back_line_by_line() {
    let rels = vec!["a.wad".to_string(), "b c.mdl".to_string()];
    let text = resource_text("de_x", "now", &rels);
    assert_eq!(
        text_lines(&text),
        vec!["// resources for de_x.bsp", "// generated by packmap now", "a.wad", "b c.mdl"]
    );
}

#[test]
fn a_list_is_made_as_of_a_time() {
    let list = resource_list(
        "de_x",
        &queue(&["x.wad", "maps/de_x.nav"]),
        &vanilla_files(""),
        None,
        &Vec::new(),
        "then",
    );
    assert_eq!(list.needed, vec!["x.wad"]);
    assert_eq!(list.text, "// resources for de_x.bsp\n// generated by packmap then\nx.wad\n");
}

#[test]
fn a_list_is_made_as_of_now() {
    let list = write_resource_list(
        "de_x",
        &queue(&["x.wad"]),
        &vanilla_files(""),
        None,
        &Vec::new(),
    )
    .unwrap();
    assert_eq!(list.needed, vec!["x.wad"]);
    let lines = text_lines(&list.text);
    assert_eq!(lines.len(), 3);
    assert_eq!(lines[0], "// resources for de_x.bsp");
    assert!(lines[1].starts_with("// generated by packmap 20"));
    assert!(lines[1].ends_with("Z"));
    assert_eq!(lines[2], "x.wad");
}

#[test]
fn an_instant_is_written_in_utc() {
    assert_eq!(stamp_at(0).unwrap(), "1970-01-01T00:00:00Z");
    assert_eq!(stamp_at(123_456_789).unwrap(), "1970-01-01T00:00:00.123456789Z");
    assert_eq!(stamp_at(1_546_300_800_000_000_000).unwrap(), "2019-01-01T00:00:00Z");
    assert_eq!(stamp_at(FOUR_DIGIT_YEARS_END - 1_000_000_000).unwrap(), "9999-12-31T23:59:59Z");
}

#[test]
fn an_instant_without_a_four_digit_year_is_refused() {
    assert!(stamp_at(FOUR_DIGIT_YEARS_END).is_err());
    assert!(stamp_at(-62_167_219_200_000_000_001).is_err());
    assert!(stamp_at(-62_167_219_200_000_000_000).is_ok());
}

#[test]
fn the_clock_shows_a_time_that_can_be_written() {
    let stamp = timestamp().unwrap();
    assert!(stamp.chars().all(|c| c.is_ascii_digit() || "-:.TZ".contains(c)));
    assert!(stamp.as_str() > "2020-01-01T00:00:00Z");
}

#[test]
fn the_name_of_the_file_tells_why_a_list_was_written() {
    assert_eq!(list_file_name("de_x", true), "de_x.res");
    assert_eq!(list_file_name("de_x", false), "de_x_resources.txt");
}

#[test]
fn a_list_is_summed_up() {
    assert_eq!(
        list_summary(12, "/tmp/de_x.res"),
        "\n--- Summary ---\n  Resources: 12 non-vanilla files listed\n  Output:    /tmp/de_x.res"
    );
}
