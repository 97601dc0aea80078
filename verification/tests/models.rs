use packmap::models::{collect_model_siblings, collect_siblings, queued_models, read_contents};
use packmap::paths::{enqueue, Queue};
use packmap::server::{FileRead, Server};
use packmap::table::StringTable;

fn header(groups: i32, textures: i32) -> Vec<u8> {
    let mut data = vec![0u8; 184];
    data[0..4].copy_from_slice(b"IDST");
    data[172..176].copy_from_slice(&groups.to_le_bytes());
    data[180..184].copy_from_slice(&textures.to_le_bytes());
    data
}

fn values(queue: &Queue) -> Vec<String> {
    (0..queue.len()).map(|i| queue.value(i).clone()).collect()
}

fn siblings(rel: &str, data: Vec<u8>) -> Vec<String> {
    let mut queue: Queue = StringTable::new();
    collect_siblings(rel, &data, &mut queue);
    values(&queue)
}

fn dirs() -> Vec<String> {
    vec!["cstrike".to_string()]
}

#[test]
fn a_model_without_textures_has_a_texture_file() {
    assert_eq!(siblings("models/gate.mdl", header(1, 0)), vec!["models/gateT.mdl"]);
    assert_eq!(siblings("models/gate.mdl", header(1, 3)), Vec::<String>::new());
}

#[test]
fn sequence_groups_are_numbered_from_one() {
    assert_eq!(
        siblings("models/Gate.MDL", header(3, 1)),
        vec!["models/Gate01.mdl", "models/Gate02.mdl"]
    );
    assert_eq!(siblings("models/gate.mdl", header(0, 1)), Vec::<String>::new());
    assert_eq!(siblings("models/gate.mdl", header(-5, 1)), Vec::<String>::new());
}

#[test]
fn group_numbers_grow_beyond_two_digits() {
    let all = siblings("m.mdl", header(102, 0));
    assert_eq!(all.len(), 102);
    for name in ["m01.mdl", "m09.mdl", "m10.mdl", "m99.mdl", "m100.mdl", "m101.mdl", "mT.mdl"] {
        assert!(all.contains(&name.to_string()));
    }
}

#[test]
fn other_files_have_no_siblings() {
    let mut wrong = header(3, 0);
    wrong[3] = b'Q';
    assert_eq!(siblings("a.mdl", wrong), Vec::<String>::new());
    let mut short = header(3, 0);
    short.pop();
    assert_eq!(siblings("a.mdl", short), Vec::<String>::new());
}

#[test]
fn models_in_the_queue_are_told_by_extension() {
    let mut queue: Queue = StringTable::new();
    for path in ["models/B.MDL", "models/a.mdl", "sound/mdl.wav"] {
        enqueue(path, &mut queue);
    }
    assert_eq!(queued_models(&queue), vec!["models/a.mdl", "models/B.MDL"]);
}

#[test]
fn siblings_of_queued_models_are_added() {
    let mut files: Server = StringTable::new();
    files.insert("cstrike/models/a.mdl".to_string(), FileRead::Bytes(header(2, 0)));
    files.insert("cstrike/models/b.mdl".to_string(), FileRead::Failed("denied".to_string()));
    let mut queue: Queue = StringTable::new();
    for path in ["models/a.mdl", "models/b.mdl", "models/c.mdl"] {
        enqueue(path, &mut queue);
    }
    collect_model_siblings(&files, &dirs(), &mut queue);
    assert_eq!(
        values(&queue),
        vec!["models/a.mdl", "models/a01.mdl", "models/aT.mdl", "models/b.mdl", "models/c.mdl"]
    );
}

#[test]
fn siblings_of_siblings_are_not_looked_for() {
    let mut files: Server = StringTable::new();
    files.insert("cstrike/m.mdl".to_string(), FileRead::Bytes(header(1, 0)));
    files.insert("cstrike/mT.mdl".to_string(), FileRead::Bytes(header(1, 0)));
    let mut queue: Queue = StringTable::new();
    enqueue("m.mdl", &mut queue);
    collect_model_siblings(&files, &dirs(), &mut queue);
    assert_eq!(values(&queue), vec!["m.mdl", "mT.mdl"]);
}

#[test]
fn contents_are_read_where_they_can_be() {
    let mut files: Server = StringTable::new();
    files.insert("cstrike/a.txt".to_string(), FileRead::Bytes(vec![1, 2]));
    files.insert("cstrike/b.txt".to_string(), FileRead::Failed("denied".to_string()));
    assert_eq!(read_contents("a.txt", &files, &dirs()), Some(&vec![1u8, 2]));
    assert_eq!(read_contents("b.txt", &files, &dirs()), None);
    assert_eq!(read_contents("c.txt", &files, &dirs()), None);
}
