use packmap::plan::{is_bsp_extension, is_yes, mode_line, parse_args, plan_map, ArgsError};

fn args(words: &[&str]) -> Vec<String> {
    words.iter().map(|word| word.to_string()).collect()
}

#[test]
fn paths_are_taken_in_order() {
    let options = parse_args(&args(&["b.bsp", "a.bsp", "maps"])).unwrap();
    assert_eq!(options.paths, vec!["b.bsp", "a.bsp", "maps"]);
    assert_eq!(options.out, None);
    assert!(!options.res_only);
}

#[test]
fn options_can_stand_anywhere() {
    for words in [
        ["-r", "-o", "out", "a.bsp"],
        ["a.bsp", "--res-only", "--out", "out"],
        ["-o", "out", "a.bsp", "-r"],
    ] {
        let options = parse_args(&args(&words)).unwrap();
        assert_eq!(options.paths, vec!["a.bsp"]);
        assert_eq!(options.out, Some("out".to_string()));
        assert!(options.res_only);
    }
}

#[test]
fn the_later_output_directory_counts() {
    let options = parse_args(&args(&["-o", "x", "--out", "-r", "a.bsp"])).unwrap();
    assert_eq!(options.out, Some("-r".to_string()));
    assert!(!options.res_only);
}

#[test]
fn a_command_line_without_paths_is_refused() {
    for words in [&[][..], &["-r"][..], &["-o", "a.bsp"][..]] {
        assert!(matches!(parse_args(&args(words)), Err(ArgsError::NoPaths)));
    }
}

#[test]
fn an_option_without_its_directory_is_refused() {
    match parse_args(&args(&["a.bsp", "--out"])) {
        Err(ArgsError::MissingDirectory(flag)) => assert_eq!(flag, "--out"),
        _ => panic!("not refused"),
    }
    match parse_args(&args(&["-o"])) {
        Err(ArgsError::MissingDirectory(flag)) => assert_eq!(flag, "-o"),
        _ => panic!("not refused"),
    }
}

#[test]
fn maps_are_told_by_extension() {
    assert!(is_bsp_extension("bsp"));
    assert!(is_bsp_extension("BsP"));
    assert!(!is_bsp_extension("bspx"));
    assert!(!is_bsp_extension(""));
}

#[test]
fn yes_is_a_single_letter() {
    assert!(is_yes("y\n"));
    assert!(is_yes("  Y \r\n"));
    assert!(is_yes("\u{a0}y"));
    assert!(!is_yes("yes"));
    assert!(!is_yes(""));
    assert!(!is_yes("n"));
}

#[test]
fn a_map_in_a_known_game_directory_is_inside_a_server() {
    let plan = plan_map("cstrike", true);
    assert!(!plan.loose);
    assert_eq!(plan.search_dirs, vec!["cstrike"]);
    let plan = plan_map("czero", true);
    assert_eq!(plan.search_dirs, vec!["czero"]);
}

#[test]
fn downloads_are_searched_before_the_game() {
    assert_eq!(
        plan_map("cstrike_downloads", true).search_dirs,
        vec!["cstrike_downloads", "cstrike"]
    );
    assert_eq!(
        plan_map("czero_downloads", true).search_dirs,
        vec!["czero_downloads", "czero"]
    );
}

#[test]
fn other_maps_are_loose() {
    for (dir, root) in [("valve", true), ("", true), ("cstrike", false)] {
        let plan = plan_map(dir, root);
        assert!(plan.loose);
        assert_eq!(plan.search_dirs, Vec::<String>::new());
    }
}

#[test]
fn the_mode_is_told() {
    let inside = plan_map("cstrike_downloads", true);
    let loose = plan_map("", false);
    assert_eq!(
        mode_line(&inside, false, "/srv/hlds"),
        "Mode: server /srv/hlds [cstrike_downloads -> cstrike]\n"
    );
    assert_eq!(mode_line(&inside, true, "/srv/hlds"), "Mode: resource list only\n");
    assert_eq!(mode_line(&loose, false, ""), "Mode: loose (resource list only)\n");
    assert_eq!(mode_line(&loose, true, ""), "Mode: resource list only\n");
}
