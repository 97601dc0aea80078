use packmap::entities::parse_entities;
use packmap::paths::Queue;
use packmap::references::{collect_entity_resources, collect_raw_scan, collect_value};
use packmap::table::StringTable;

fn values(queue: &Queue) -> Vec<String> {
    (0..queue.len()).map(|i| queue.value(i).clone()).collect()
}

fn raw(data: &[u8]) -> Vec<String> {
    let mut queue: Queue = StringTable::new();
    collect_raw_scan(data, &mut queue);
    values(&queue)
}

fn of_text(text: &str) -> Vec<String> {
    let mut queue: Queue = StringTable::new();
    collect_entity_resources(&parse_entities(text), &mut queue);
    values(&queue)
}

#[test]
fn values_that_name_resources_are_collected() {
    assert_eq!(
        of_text("{\"message\" \"ambience/wind.wav\" \"model\" \"models/gate.mdl\" \"x\" \"glow.SPR\"}{\"y\" \"Tree.mdl\"}"),
        vec!["models/gate.mdl", "models/Tree.mdl", "sound/ambience/wind.wav", "sprites/glow.SPR"]
    );
}

#[test]
fn other_values_are_passed_over() {
    assert_eq!(
        of_text("{\"a\" \"\" \"b\" \"*12.mdl\" \"c\" \"sky.tga\" \"d\" \"wav\"}"),
        Vec::<String>::new()
    );
}

#[test]
fn an_asterisk_without_a_number_is_no_inner_model() {
    assert_eq!(of_text("{\"a\" \"*x.mdl\"}"), vec!["models/*x.mdl"]);
    assert_eq!(of_text("{\"a\" \"*/x.wav\"}"), vec!["sound/*/x.wav"]);
}

#[test]
fn values_of_an_entity_are_taken_in_the_order_of_their_keys() {
    assert_eq!(of_text("{\"b\" \"GATE.mdl\" \"a\" \"gate.mdl\"}"), vec!["models/gate.mdl"]);
}

#[test]
fn a_value_is_judged_by_its_lowercase_form() {
    let mut queue: Queue = StringTable::new();
    collect_value("door.txt", "door.wav", &mut queue);
    assert_eq!(values(&queue), vec!["door.txt"]);
    collect_value("other.mdl", "other.txt", &mut queue);
    collect_value("*3", "*3.mdl", &mut queue);
    assert_eq!(values(&queue), vec!["door.txt"]);
}

#[test]
fn paths_in_the_bytes_are_found() {
    assert_eq!(
        raw(b"\0\0models/Gate.MDL\0junk ambience\\wind.wav\xffglow.spr"),
        vec!["models/Gate.MDL", "sound/ambience/wind.wav", "sprites/glow.spr"]
    );
}

#[test]
fn a_path_in_the_bytes_needs_two_characters() {
    assert_eq!(raw(b" a.mdl .wav ab.mdl"), vec!["models/ab.mdl"]);
    assert_eq!(raw(b""), Vec::<String>::new());
}

#[test]
fn a_longer_extension_is_no_match() {
    assert_eq!(raw(b"gate.mdlx wind.wav_ glow.spr/"), Vec::<String>::new());
    assert_eq!(raw(b"gate.md"), Vec::<String>::new());
    assert_eq!(raw(b"gate.mdl"), vec!["models/gate.mdl"]);
    assert_eq!(raw(b"gate.mdl.wav"), vec!["models/gate.mdl"]);
}

#[test]
fn the_scan_goes_on_behind_a_refused_extension() {
    assert_eq!(raw(b"ab.wavcd.mdl"), vec!["models/cd.mdl"]);
    assert_eq!(raw(b"a.wavcd.mdl"), vec!["models/wavcd.mdl"]);
    assert_eq!(raw(b"ab.tgacd.mdl"), vec!["models/tgacd.mdl"]);
}

#[test]
fn a_path_behind_a_plain_dot_is_found() {
    assert_eq!(raw(b"..gate.mdl"), vec!["models/gate.mdl"]);
    assert_eq!(raw(b"x-_/y.Spr"), vec!["x-_/y.Spr"]);
}
