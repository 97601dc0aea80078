use packmap::details::{collect_detail_textures, entry_detail};
use packmap::paths::Queue;
use packmap::table::StringTable;

fn details(data: &[u8]) -> Vec<String> {
    let mut queue: Queue = StringTable::new();
    collect_detail_textures(data, &mut queue);
    (0..queue.len()).map(|i| queue.value(i).clone()).collect()
}

#[test]
fn the_second_word_of_a_line_names_a_texture() {
    assert_eq!(
        details(b"wall detail/brick 10 10\r\n\tfloor\t DETAIL/Tile 5 5\n"),
        vec!["gfx/detail/brick.tga", "gfx/DETAIL/Tile.tga"]
    );
}

#[test]
fn comments_and_blank_lines_are_passed_over() {
    assert_eq!(
        details(b"// detail/no detail/no\n\n   \n  //x detail/no\nwall detail/yes"),
        vec!["gfx/detail/yes.tga"]
    );
}

#[test]
fn lines_without_a_path_below_detail_are_passed_over() {
    assert_eq!(details(b"wall\nwall other/brick\nwall detailbrick\ndetail/x y"), Vec::<String>::new());
}

#[test]
fn a_texture_is_named_once() {
    assert_eq!(details(b"a detail/Brick\nb detail/brick\nc DETAIL/BRICK\n"), vec!["gfx/detail/Brick.tga"]);
}

#[test]
fn a_line_that_is_not_utf8_is_passed_over() {
    assert_eq!(
        details(b"a detail/\xff\nb detail/fine\n\xff detail/no\n"),
        vec!["gfx/detail/fine.tga"]
    );
}

#[test]
fn unicode_white_space_separates_words() {
    assert_eq!(details("wall\u{2003}detail/brick\u{3000}1".as_bytes()), vec!["gfx/detail/brick.tga"]);
}

#[test]
fn an_empty_list_names_nothing() {
    assert_eq!(details(b""), Vec::<String>::new());
    assert_eq!(details(b"\n\r\n"), Vec::<String>::new());
}

#[test]
fn an_entry_is_judged_by_the_lowercase_form_of_its_texture() {
    assert_eq!(entry_detail("w X", "X".to_string(), "detail/x"), Some("X".to_string()));
    assert_eq!(entry_detail("w X", "X".to_string(), "x"), None);
    assert_eq!(entry_detail("//w X", "X".to_string(), "detail/x"), None);
    assert_eq!(entry_detail("w", String::new(), "detail/x"), None);
    assert_eq!(entry_detail("", "X".to_string(), "detail/x"), None);
}
