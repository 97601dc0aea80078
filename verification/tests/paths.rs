use packmap::paths::{enqueue, enqueue_as, normalize_path, place_path, with_slashes, Queue};
use packmap::table::StringTable;

fn empty_queue() -> Queue {
    StringTable::new()
}

fn pairs(queue: &Queue) -> Vec<(String, String)> {
    let mut all = Vec::new();
    for i in 0..queue.len() {
        all.push((queue.key(i).clone(), queue.value(i).clone()));
    }
    all
}

fn pair(key: &str, value: &str) -> (String, String) {
    (key.to_string(), value.to_string())
}

#[test]
fn a_queued_path_keeps_its_spelling() {
    let mut queue = empty_queue();
    enqueue("Models/Gate.MDL", &mut queue);
    assert_eq!(pairs(&queue), vec![pair("models/gate.mdl", "Models/Gate.MDL")]);
}

#[test]
fn the_first_spelling_stays() {
    let mut queue = empty_queue();
    enqueue("sound/Ambience/Wind.wav", &mut queue);
    enqueue("SOUND/ambience/wind.WAV", &mut queue);
    assert_eq!(
        pairs(&queue),
        vec![pair("sound/ambience/wind.wav", "sound/Ambience/Wind.wav")]
    );
}

#[test]
fn backslashes_and_leading_slashes_are_put_right() {
    let mut queue = empty_queue();
    enqueue("\\\\/models\\props\\crate.mdl", &mut queue);
    assert_eq!(
        pairs(&queue),
        vec![pair("models/props/crate.mdl", "models/props/crate.mdl")]
    );
}

#[test]
fn paths_without_an_extension_are_left_out() {
    let mut queue = empty_queue();
    for path in ["", "/", "\\", "models/gate", "models/gate.", "a.b c", "a.mdl/", "gate.m-l"] {
        enqueue(path, &mut queue);
    }
    assert!(queue.is_empty());
}

#[test]
fn an_extension_may_hold_letters_digits_and_underscores() {
    let mut queue = empty_queue();
    enqueue("a.b.c_9Z", &mut queue);
    enqueue(".wav", &mut queue);
    assert_eq!(pairs(&queue), vec![pair(".wav", ".wav"), pair("a.b.c_9z", "a.b.c_9Z")]);
}

#[test]
fn lowercase_follows_unicode() {
    let mut queue = empty_queue();
    enqueue("sound/ÄÖ.wav", &mut queue);
    assert_eq!(pairs(&queue), vec![pair("sound/äö.wav", "sound/ÄÖ.wav")]);
}

#[test]
fn a_queue_is_walked_in_the_order_of_its_keys() {
    let mut queue = empty_queue();
    for path in ["b.wad", "A.wad", "a/b.mdl", "a.wav", "é.wav"] {
        enqueue(path, &mut queue);
    }
    let keys: Vec<String> = pairs(&queue).into_iter().map(|p| p.0).collect();
    assert_eq!(keys, vec!["a.wad", "a.wav", "a/b.mdl", "b.wad", "é.wav"]);
}

#[test]
fn adding_again_changes_nothing() {
    let mut queue = empty_queue();
    let paths = ["one.wad", "models/Two.mdl", "three.spr"];
    for path in paths {
        enqueue(path, &mut queue);
    }
    let before = pairs(&queue);
    for path in paths {
        enqueue(path, &mut queue);
    }
    assert_eq!(pairs(&queue), before);
    for (_, path) in &before {
        enqueue(path, &mut queue);
    }
    assert_eq!(pairs(&queue), before);
}

#[test]
fn another_spelling_is_the_same_resource() {
    let mut queue = empty_queue();
    enqueue("models/props\\Crate.mdl", &mut queue);
    for other in [
        "models\\props/Crate.mdl",
        "//models/props/crate.MDL",
        "\\/MODELS\\PROPS\\CRATE.MDL",
    ] {
        enqueue(other, &mut queue);
    }
    assert_eq!(pairs(&queue), vec![pair("models/props/crate.mdl", "models/props/Crate.mdl")]);
    enqueue("sound/\u{3a3}Ä.wav", &mut queue);
    enqueue("SOUND\\\u{3a3}Ä.WAV", &mut queue);
    assert_eq!(queue.len(), 2);
    enqueue("a\u{3a3}/b\u{3a3}.wav", &mut queue);
    enqueue("A\u{3a3}\\B\u{3a3}.WAV", &mut queue);
    assert_eq!(queue.len(), 3);
}

#[test]
fn the_order_of_adding_does_not_bear_on_the_keys() {
    let mut forward = empty_queue();
    let mut backward = empty_queue();
    let paths = ["One.wad", "one.WAD", "two.mdl", "two.mdl", "three"];
    for path in paths {
        enqueue(path, &mut forward);
    }
    for path in paths.iter().rev() {
        enqueue(path, &mut backward);
    }
    let keys = |queue: &Queue| -> Vec<String> { pairs(queue).into_iter().map(|p| p.0).collect() };
    assert_eq!(keys(&forward), vec!["one.wad", "two.mdl"]);
    assert_eq!(keys(&forward), keys(&backward));
    assert_eq!(forward.get("one.wad").unwrap(), "One.wad");
    assert_eq!(backward.get("one.wad").unwrap(), "one.WAD");
}

#[test]
fn a_path_is_queued_under_the_given_key() {
    let mut queue = empty_queue();
    enqueue_as("X.WAV".to_string(), "x.wav".to_string(), &mut queue);
    enqueue_as("x.Wav".to_string(), "x.wav".to_string(), &mut queue);
    assert_eq!(pairs(&queue), vec![pair("x.wav", "X.WAV")]);
}

#[test]
fn sounds_are_placed_below_sound() {
    assert_eq!(normalize_path("ambience/wind.wav"), "sound/ambience/wind.wav");
    assert_eq!(normalize_path("Ambience\\Wind.WAV"), "sound/Ambience/Wind.WAV");
    assert_eq!(normalize_path("sound/ambience/wind.wav"), "sound/ambience/wind.wav");
    assert_eq!(normalize_path("SOUND\\wind.wav"), "SOUND/wind.wav");
    assert_eq!(normalize_path("wind.wav"), "sound/wind.wav");
}

#[test]
fn bare_models_and_sprites_are_placed_in_their_directories() {
    assert_eq!(normalize_path("gate.mdl"), "models/gate.mdl");
    assert_eq!(normalize_path("Glow.SPR"), "sprites/Glow.SPR");
    assert_eq!(normalize_path("props/gate.mdl"), "props/gate.mdl");
    assert_eq!(normalize_path("props\\glow.spr"), "props/glow.spr");
    assert_eq!(normalize_path("readme.txt"), "readme.txt");
}

#[test]
fn placing_twice_is_placing_once() {
    for val in [
        "a.wav",
        "x\\a.WAV",
        "b.mdl",
        "c.spr",
        "d/e.mdl",
        "other",
        "Sound/x.wav",
        "\u{3a3}.wav",
        "Ä\u{3a3}.mdl",
        "\u{130}\\.spr",
        "\u{391}\u{3a3}",
        "\u{391}\u{3a3}.WAV",
        "\u{391}\u{3a3}.Spr",
    ] {
        let once = normalize_path(val);
        assert!(!once.contains('\\'));
        assert_eq!(normalize_path(&once), once);
    }
}

#[test]
fn a_path_is_placed_by_its_lowercase_form() {
    assert_eq!(place_path("A".to_string(), "a.wav"), "sound/A");
    assert_eq!(place_path("A".to_string(), "sound/a.wav"), "A");
    assert_eq!(place_path("A".to_string(), "a.mdl"), "models/A");
    assert_eq!(place_path("A/B".to_string(), "a.mdl"), "A/B");
    assert_eq!(place_path("A".to_string(), "a.spr"), "sprites/A");
}

#[test]
fn every_backslash_is_turned() {
    assert_eq!(with_slashes("\\a\\b/c\\"), "/a/b/c/");
    assert_eq!(with_slashes(""), "");
}
