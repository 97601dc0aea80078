use packmap::clock::{stamp_at, FOUR_DIGIT_YEARS_END};
use packmap::list::vanilla_files;
use packmap::pack::{check_names, entry_count, write_zip, write_zip_inner, zip_summary};
use packmap::pack::{PackError, Totals};
use packmap::pack_map::{pack_bsp, MapError, Output};
use packmap::paths::{enqueue, Queue};
use packmap::plan::plan_map;
use packmap::server::{FileRead, Server};
use packmap::table::StringTable;
use std::io::Read;

fn queue(paths: &[&str]) -> Queue {
    let mut queue: Queue = StringTable::new();
    for path in paths {
        enqueue(path, &mut queue);
    }
    queue
}

fn server(files: &[(&str, &[u8])]) -> Server {
    let mut all: Server = StringTable::new();
    for (path, data) in files {
        all.insert(path.to_string(), FileRead::Bytes(data.to_vec()));
    }
    all
}

fn dirs() -> Vec<String> {
    vec!["cstrike".to_string()]
}

fn unzip(bytes: &[u8]) -> Vec<(String, Vec<u8>)> {
    let mut archive = zip::ZipArchive::new(std::io::Cursor::new(bytes.to_vec())).unwrap();
    let mut entries = Vec::new();
    for i in 0..archive.len() {
        let mut file = archive.by_index(i).unwrap();
        let mut data = Vec::new();
        file.read_to_end(&mut data).unwrap();
        entries.push((file.name().to_string(), data));
    }
    entries
}

fn entry(name: &str, data: &[u8]) -> (String, Vec<u8>) {
    (name.to_string(), data.to_vec())
}

fn line(mark: &str, name: &str, what: &str) -> String {
    format!("  {} {:<55} [{}]", mark, name, what)
}

fn put(data: &mut [u8], at: usize, value: u32) {
    data[at..at + 4].copy_from_slice(&value.to_le_bytes());
}

fn map(entities: &[u8]) -> Vec<u8> {
    let mut data = vec![0u8; 124];
    data[0] = 30;
    put(&mut data, 4, 124);
    put(&mut data, 8, entities.len() as u32);
    data.extend_from_slice(entities);
    data
}

#[test]
fn a_map_is_packed_with_its_resources() {
    let mut log = Vec::new();
    let packed = write_zip_inner(
        b"map",
        "de_x",
        &queue(&["sound/Wind.wav", "maps/de_x.nav", "x.wad", "gone.mdl", "maps/de_x.txt"]),
        &vanilla_files("x.wad\n"),
        &server(&[
            ("cstrike/sound/Wind.wav", b"wind"),
            ("cstrike/maps/de_x.nav", b"nav"),
            ("cstrike/x.wad", b"wad"),
        ]),
        &dirs(),
        stamp_at(0),
        &mut log,
    )
    .unwrap();
    assert_eq!(
        unzip(&packed.bytes),
        vec![
            entry("maps/de_x.bsp", b"map"),
            entry("maps/de_x.nav", b"nav"),
            entry("sound/Wind.wav", b"wind"),
            entry(
                "maps/de_x.res",
                b"// resources for de_x.bsp\n// generated by packmap 1970-01-01T00:00:00Z\nsound/Wind.wav\n"
            ),
        ]
    );
    assert_eq!(
        log,
        vec![
            line("+", "maps/de_x.bsp", "map"),
            line("?", "gone.mdl", "not found"),
            line("+", "maps/de_x.nav", "added"),
            line("+", "sound/Wind.wav", "added"),
            line("-", "x.wad", "vanilla"),
            line("+", "maps/de_x.res", "generated"),
        ]
    );
    assert_eq!(packed.totals.packed, 2);
    assert_eq!(packed.totals.vanilla, 1);
    assert_eq!(packed.totals.missing, 1);
    assert_eq!(packed.totals.failed, 0);
    assert!(packed.totals.generated);
    assert_eq!(entry_count(&packed.totals), 4);
}

#[test]
fn every_resource_is_counted_once() {
    let mut files = server(&[("cstrike/a.mdl", b"1"), ("cstrike/b.mdl", b"2")]);
    files.insert("cstrike/c.mdl".to_string(), FileRead::Failed("denied".to_string()));
    let resources = queue(&["a.mdl", "b.mdl", "c.mdl", "d.mdl", "e.mdl", "maps/de_x.txt"]);
    let packed = write_zip_inner(
        b"map",
        "de_x",
        &resources,
        &vanilla_files("b.mdl"),
        &files,
        &dirs(),
        Ok("then".to_string()),
        &mut Vec::new(),
    )
    .unwrap();
    let totals = &packed.totals;
    let skipped = 1;
    assert_eq!(
        totals.packed + totals.vanilla + totals.missing + totals.failed + skipped,
        resources.len()
    );
    assert_eq!(entry_count(totals), unzip(&packed.bytes).len() as u128);
}

#[test]
fn other_files_of_the_server_do_not_bear_on_the_archive() {
    let resources = queue(&["a.mdl", "b.wad"]);
    let few = server(&[("cstrike/a.mdl", b"1")]);
    let more = server(&[("cstrike/a.mdl", b"1"), ("cstrike/c.mdl", b"2"), ("czero/b.wad", b"3")]);
    let pack = |files: &Server| {
        let mut log = Vec::new();
        let packed = write_zip_inner(
            b"map",
            "de_x",
            &resources,
            &vanilla_files(""),
            files,
            &dirs(),
            Ok("then".to_string()),
            &mut log,
        )
        .unwrap();
        (unzip(&packed.bytes), log)
    };
    assert_eq!(pack(&few), pack(&more));
}

#[test]
fn distinct_and_short_entries_are_packed() {
    let mut log = Vec::new();
    let packed = write_zip_inner(
        b"B",
        "m",
        &queue(&["maps/m.nav", "maps/m.res", "sound/B.wav", "V.spr"]),
        &vanilla_files("v.spr"),
        &server(&[
            ("cstrike/maps/m.nav", b"N"),
            ("cstrike/sound/B.wav", b"W"),
            ("cstrike/V.spr", b"V"),
        ]),
        &dirs(),
        stamp_at(1_704_067_200_000_000_000),
        &mut log,
    )
    .unwrap();
    assert_eq!(
        unzip(&packed.bytes),
        vec![
            entry("maps/m.bsp", b"B"),
            entry("maps/m.nav", b"N"),
            entry("sound/B.wav", b"W"),
            entry(
                "maps/m.res",
                b"// resources for m.bsp\n// generated by packmap 2024-01-01T00:00:00Z\nsound/B.wav\n"
            ),
        ]
    );
}

#[test]
fn an_unreadable_resource_leaves_no_trace() {
    let mut files = server(&[("cstrike/a.mdl", b"1"), ("cstrike/c.mdl", b"3")]);
    files.insert("cstrike/b.mdl".to_string(), FileRead::Failed("denied".to_string()));
    let pack = |paths: &[&str]| {
        let packed = write_zip_inner(
            b"map",
            "de_x",
            &queue(paths),
            &vanilla_files(""),
            &files,
            &dirs(),
            Ok("then".to_string()),
            &mut Vec::new(),
        )
        .unwrap();
        unzip(&packed.bytes)
    };
    assert_eq!(pack(&["a.mdl", "b.mdl", "c.mdl"]), pack(&["a.mdl", "c.mdl"]));
}

#[test]
fn a_resource_list_of_the_server_is_packed_as_it_is() {
    let mut log = vec!["before".to_string()];
    let packed = write_zip_inner(
        b"map",
        "De_X",
        &queue(&["maps/De_X.res"]),
        &vanilla_files(""),
        &server(&[("cstrike/maps/De_X.res", b"mine")]),
        &dirs(),
        stamp_at(FOUR_DIGIT_YEARS_END),
        &mut log,
    )
    .unwrap();
    assert_eq!(
        unzip(&packed.bytes),
        vec![entry("maps/De_X.bsp", b"map"), entry("maps/De_X.res", b"mine")]
    );
    assert_eq!(
        log,
        vec![
            "before".to_string(),
            line("+", "maps/De_X.bsp", "map"),
            line("+", "maps/De_X.res", "added"),
        ]
    );
    assert!(!packed.totals.generated);
    assert_eq!(entry_count(&packed.totals), 2);
}

#[test]
fn an_unreadable_file_is_left_out() {
    let mut files = server(&[]);
    files.insert("cstrike/a.mdl".to_string(), FileRead::Failed("denied".to_string()));
    let mut log = Vec::new();
    let packed = write_zip_inner(
        b"map",
        "de_x",
        &queue(&["a.mdl"]),
        &vanilla_files(""),
        &files,
        &dirs(),
        Ok("then".to_string()),
        &mut log,
    )
    .unwrap();
    assert_eq!(packed.totals.failed, 1);
    assert_eq!(
        log,
        vec![
            line("+", "maps/de_x.bsp", "map"),
            line("!", "a.mdl", "read error: denied"),
            line("+", "maps/de_x.res", "generated"),
        ]
    );
    assert_eq!(unzip(&packed.bytes).len(), 2);
}

#[test]
fn a_generated_list_names_no_navigation_mesh() {
    let packed = write_zip_inner(
        b"map",
        "de_x",
        &queue(&["maps/de_x.nav", "maps/Other.NAV", "a.wad"]),
        &vanilla_files(""),
        &server(&[
            ("cstrike/maps/de_x.nav", b"1"),
            ("cstrike/maps/Other.NAV", b"2"),
            ("cstrike/a.wad", b"3"),
        ]),
        &dirs(),
        Ok("then".to_string()),
        &mut Vec::new(),
    )
    .unwrap();
    let entries = unzip(&packed.bytes);
    assert_eq!(entries.len(), 5);
    assert_eq!(
        entries[4],
        entry(
            "maps/de_x.res",
            b"// resources for de_x.bsp\n// generated by packmap then\na.wad\n"
        )
    );
}

#[test]
fn a_list_cannot_be_generated_without_a_time() {
    let mut log = Vec::new();
    let r = write_zip_inner(
        b"map",
        "de_x",
        &queue(&[]),
        &vanilla_files(""),
        &server(&[]),
        &dirs(),
        stamp_at(FOUR_DIGIT_YEARS_END),
        &mut log,
    );
    assert!(matches!(r, Err(PackError::Time(_))));
    assert_eq!(log, vec![line("+", "maps/de_x.bsp", "map")]);
}

#[test]
fn an_entry_cannot_have_the_name_of_another() {
    let mut log = Vec::new();
    let r = write_zip_inner(
        b"map",
        "de_x",
        &queue(&["a.wad", "maps/de_x.bsp"]),
        &vanilla_files(""),
        &server(&[("cstrike/a.wad", b"1"), ("cstrike/maps/de_x.bsp", b"2")]),
        &dirs(),
        Ok("then".to_string()),
        &mut log,
    );
    assert!(matches!(r, Err(PackError::Zip(_))));
    assert_eq!(
        log,
        vec![line("+", "maps/de_x.bsp", "map"), line("+", "a.wad", "added")]
    );
}

#[test]
fn many_entries_are_read_back() {
    let names: Vec<String> = (0..65_534u32).map(|i| format!("{:07}.a", i)).collect();
    for count in [names.len() - 1, names.len()] {
        let mut resources: Queue = StringTable::new();
        let mut files = server(&[]);
        for name in &names[..count] {
            resources.insert(name.clone(), name.clone());
            files.insert(format!("cstrike/{}", name), FileRead::Bytes(Vec::new()));
        }
        let packed = write_zip_inner(
            b"map",
            "de_x",
            &resources,
            &vanilla_files(""),
            &files,
            &dirs(),
            Ok("then".to_string()),
            &mut Vec::new(),
        )
        .unwrap();
        let archive = zip::ZipArchive::new(std::io::Cursor::new(packed.bytes)).unwrap();
        assert_eq!(archive.len(), count + 2);
        assert_eq!(entry_count(&packed.totals), count as u128 + 2);
        assert_eq!(archive.name_for_index(count), Some(names[count - 1].as_str()));
    }
}

#[test]
fn large_and_empty_contents_are_read_back() {
    let large: Vec<u8> = (0..200_000u32).map(|i| (i * i / 7) as u8).collect();
    let packed = write_zip_inner(
        &large,
        "ä",
        &queue(&["sound/ö.wav"]),
        &vanilla_files(""),
        &server(&[("cstrike/sound/ö.wav", b"")]),
        &dirs(),
        Ok("then".to_string()),
        &mut Vec::new(),
    )
    .unwrap();
    let entries = unzip(&packed.bytes);
    assert_eq!(entries[0], ("maps/ä.bsp".to_string(), large));
    assert_eq!(entries[1], entry("sound/ö.wav", b""));
    assert_eq!(entries[2].0, "maps/ä.res");
}

#[test]
fn a_map_is_packed_as_of_now() {
    let mut log = Vec::new();
    let packed = write_zip(
        b"map",
        "de_x",
        &queue(&[]),
        &vanilla_files(""),
        &server(&[]),
        &dirs(),
        &mut log,
    )
    .unwrap();
    let entries = unzip(&packed.bytes);
    assert_eq!(entries.len(), 2);
    let text = String::from_utf8(entries[1].1.clone()).unwrap();
    assert!(text.starts_with("// resources for de_x.bsp\n// generated by packmap 20"));
    assert!(text.ends_with("Z\n"));
}

#[test]
fn names_must_fit_their_length_field() {
    let none = vanilla_files("");
    let fits = "a".repeat(65535 - 9);
    let long = "a".repeat(65535 - 8);
    assert!(check_names(&fits, &queue(&[]), &none, &server(&[]), &dirs()));
    assert!(!check_names(&long, &queue(&[]), &none, &server(&[]), &dirs()));
    let wide = "ä".repeat(32768);
    assert!(!check_names(&wide, &queue(&[]), &none, &server(&[]), &dirs()));
    let path = format!("{}.wad", "b".repeat(65532));
    let there = format!("cstrike/{}", path);
    assert!(check_names("de_x", &queue(&[&path]), &none, &server(&[]), &dirs()));
    let files = server(&[(&there, b"")]);
    assert!(!check_names("de_x", &queue(&[&path]), &none, &files, &dirs()));
    let vanilla = vanilla_files(&path);
    assert!(check_names("de_x", &queue(&[&path]), &vanilla, &files, &dirs()));
}

#[test]
fn an_archive_is_summed_up() {
    let mut totals = Totals { packed: 3, vanilla: 10, missing: 2, failed: 0, generated: true };
    assert_eq!(
        zip_summary(&totals, "out.zip"),
        "\n--- Summary ---\n  Added:   5 files\n  Vanilla: 10 skipped\n  Missing: 2 not found on server\n  Output:  out.zip"
    );
    totals.failed = 1;
    totals.generated = false;
    assert_eq!(
        zip_summary(&totals, "out.zip"),
        "\n--- Summary ---\n  Added:   4 files\n  Vanilla: 10 skipped\n  Missing: 2 not found on server\n  Failed:  1 unreadable, left out of the zip\n  Output:  out.zip"
    );
}

#[test]
fn a_map_inside_a_server_becomes_an_archive() {
    let data = map(b"{\"model\" \"gate.mdl\"}{\"noise\" \"gone.wav\"}");
    let plan = plan_map("cstrike", true);
    let mut log = Vec::new();
    let output = pack_bsp(
        &data,
        "de_x",
        &plan,
        false,
        &vanilla_files(""),
        &server(&[("cstrike/models/gate.mdl", b"gate"), ("cstrike/maps/de_x.txt", b"text")]),
        &mut log,
    )
    .unwrap();
    let packed = match output {
        Output::Archive(packed) => packed,
        Output::List(_) => panic!("a list"),
    };
    let names: Vec<String> = unzip(&packed.bytes).into_iter().map(|e| e.0).collect();
    assert_eq!(
        names,
        vec!["maps/de_x.bsp", "maps/de_x.txt", "models/gate.mdl", "maps/de_x.res"]
    );
    assert_eq!(unzip(&packed.bytes)[0].1, data);
    assert_eq!(packed.totals.missing, 1);
    assert!(log.contains(&line("?", "sound/gone.wav", "not found")));
}

#[test]
fn a_map_inside_a_server_can_become_a_list() {
    let data = map(b"{\"model\" \"gate.mdl\"}{\"noise\" \"gone.wav\"}");
    let mut log = Vec::new();
    let output = pack_bsp(
        &data,
        "de_x",
        &plan_map("cstrike", true),
        true,
        &vanilla_files(""),
        &server(&[("cstrike/models/gate.mdl", b"gate"), ("cstrike/maps/de_x.txt", b"text")]),
        &mut log,
    )
    .unwrap();
    let list = match output {
        Output::List(list) => list,
        Output::Archive(_) => panic!("an archive"),
    };
    assert_eq!(list.needed, vec!["maps/de_x.txt", "models/gate.mdl"]);
    assert!(log.is_empty());
}

#[test]
fn a_loose_map_becomes_a_list() {
    let data = map(b"{\"model\" \"gate.mdl\"}{\"noise\" \"gone.wav\"}");
    let output = pack_bsp(
        &data,
        "de_x",
        &plan_map("somewhere", true),
        false,
        &vanilla_files("models/gate.mdl"),
        &server(&[]),
        &mut Vec::new(),
    )
    .unwrap();
    match output {
        Output::List(list) => assert_eq!(list.needed, vec!["sound/gone.wav"]),
        Output::Archive(_) => panic!("an archive"),
    }
}

#[test]
fn a_file_that_is_no_map_is_refused() {
    let r = pack_bsp(
        b"no",
        "de_x",
        &plan_map("cstrike", true),
        false,
        &vanilla_files(""),
        &server(&[]),
        &mut Vec::new(),
    );
    match r {
        Err(MapError::Bsp(e)) => assert_eq!(e, "Truncated BSP header"),
        _ => panic!("not refused"),
    }
}

#[test]
fn a_texture_offset_without_an_address_is_refused() {
    let mut data = map(b"");
    put(&mut data, 20, 124);
    put(&mut data, 24, 8);
    data.extend_from_slice(&[1, 0, 0, 0, 0xfe, 0xff, 0xff, 0xff]);
    let r = pack_bsp(
        &data,
        "de_x",
        &plan_map("cstrike", true),
        false,
        &vanilla_files(""),
        &server(&[]),
        &mut Vec::new(),
    );
    assert!(matches!(r, Err(MapError::TextureOffset)));
}

#[test]
fn a_name_too_long_for_an_archive_is_refused() {
    let name = "a".repeat(70000);
    let r = pack_bsp(
        &map(b""),
        &name,
        &plan_map("cstrike", true),
        false,
        &vanilla_files(""),
        &server(&[]),
        &mut Vec::new(),
    );
    assert!(matches!(r, Err(MapError::LongName)));
}

#[test]
fn a_map_name_is_taken_as_it_is() {
    let mut log = Vec::new();
    let output = pack_bsp(
        &map(b""),
        "A b.c",
        &plan_map("cstrike", true),
        false,
        &vanilla_files(""),
        &server(&[("cstrike/maps/A b.c.txt", b"text")]),
        &mut log,
    );
    assert!(matches!(output, Ok(Output::Archive(_))));
    assert_eq!(
        log,
        vec![
            line("+", "maps/A b.c.bsp", "map"),
            line("+", "maps/A b.c.txt", "added"),
            line("+", "maps/A b.c.res", "generated"),
        ]
    );
}
