use packmap::entities::{add_pair, parse_entities, Entity};
use packmap::table::StringTable;

fn pairs(entity: &Entity) -> Vec<(&str, &str)> {
    let mut all = Vec::new();
    for i in 0..entity.len() {
        all.push((entity.key(i).as_str(), entity.value(i).as_str()));
    }
    all
}

#[test]
fn an_entity_is_read_from_its_block() {
    let entities = parse_entities("{\n\"classname\" \"worldspawn\"\n\"skyname\" \"des\"\n}\n");
    assert_eq!(entities.len(), 1);
    assert_eq!(pairs(&entities[0]), vec![("classname", "worldspawn"), ("skyname", "des")]);
}

#[test]
fn entities_are_read_in_order() {
    let entities = parse_entities("junk{\"a\" \"1\"}between{\"b\" \"2\"}");
    assert_eq!(entities.len(), 2);
    assert_eq!(pairs(&entities[0]), vec![("a", "1")]);
    assert_eq!(pairs(&entities[1]), vec![("b", "2")]);
}

#[test]
fn blocks_without_pairs_make_no_entity() {
    assert_eq!(parse_entities("").len(), 0);
    assert_eq!(parse_entities("{}{ }{\"a\"}{\"a\" \"b}").len(), 0);
    assert_eq!(parse_entities("{\"\" \"value\"}").len(), 0);
}

#[test]
fn an_unclosed_block_ends_the_text() {
    let entities = parse_entities("{\"a\" \"1\"}{\"b\" \"2\"");
    assert_eq!(entities.len(), 1);
    assert_eq!(parse_entities("}{").len(), 0);
}

#[test]
fn keys_are_made_lowercase_and_values_are_kept() {
    let entities = parse_entities("{\"ClassName\" \"Func_Door\" \"ÄB\" \"ÄB\"}");
    assert_eq!(pairs(&entities[0]), vec![("classname", "Func_Door"), ("äb", "ÄB")]);
}

#[test]
fn the_later_of_two_values_counts() {
    let entities = parse_entities("{\"a\" \"1\" \"A\" \"2\"}");
    assert_eq!(pairs(&entities[0]), vec![("a", "2")]);
}

#[test]
fn an_incomplete_pair_is_left_out() {
    let entities = parse_entities("{\"a\" \"1\" \"b\"}");
    assert_eq!(pairs(&entities[0]), vec![("a", "1")]);
    let entities = parse_entities("{\"a\" \"1\" \"b\" \"2}");
    assert_eq!(pairs(&entities[0]), vec![("a", "1")]);
}

#[test]
fn text_between_key_and_value_does_not_matter() {
    let entities = parse_entities("{x\"a\"y\"1\"z\"\"w\"2\"\"b\"\"\"}");
    assert_eq!(pairs(&entities[0]), vec![("a", "1"), ("b", "")]);
}

#[test]
fn an_opening_brace_in_a_block_is_part_of_it() {
    let entities = parse_entities("{\"a\" \"{1\"}");
    assert_eq!(pairs(&entities[0]), vec![("a", "{1")]);
}

#[test]
fn a_pair_with_an_empty_key_is_not_added() {
    let mut entity: Entity = StringTable::new();
    add_pair(&mut entity, "k".to_string(), "v".to_string());
    add_pair(&mut entity, String::new(), "w".to_string());
    assert_eq!(pairs(&entity), vec![("k", "v")]);
}
