use miv::text::{byte_len, char_index_of_byte, insert_char, remove_char, split_at_char};
use miv::utils::{get_content_path, join_content, read_file, Mode, Pos};

fn strings(v: &[&str]) -> Vec<String> {
    v.iter().map(|s| s.to_string()).collect()
}

#[test]
fn mode_labels() {
    assert_eq!(Mode::NORMAL.to_text(), "NORMAL");
    assert_eq!(Mode::INSERT.to_text(), "INSERT");
}

#[test]
fn pos_new_keeps_row_and_col() {
    let p = Pos::new(3, 7);
    assert_eq!(p.row, 3);
    assert_eq!(p.col, 7);
}

#[test]
fn content_path_is_first_argument() {
    assert_eq!(get_content_path(&strings(&["miv"]), true), None);
    assert_eq!(get_content_path(&strings(&["miv"]), false), None);
    assert_eq!(get_content_path(&strings(&["miv", "notes.txt"]), true), Some("notes.txt".to_string()));
    assert_eq!(get_content_path(&strings(&["miv", "a", "b"]), true), Some("a".to_string()));
}

#[test]
fn missing_file_is_no_content_path() {
    assert_eq!(get_content_path(&strings(&["miv", "missing.txt"]), false), None);
}

#[test]
fn read_file_splits_lines() {
    assert_eq!(read_file("a\nb"), strings(&["a", "b"]));
    assert_eq!(read_file("a\nb\n"), strings(&["a", "b"]));
    assert_eq!(read_file("a\r\nb\r\n"), strings(&["a", "b"]));
    assert_eq!(read_file("a\n\nb"), strings(&["a", "", "b"]));
    assert_eq!(read_file("\n"), strings(&[""]));
    assert_eq!(read_file("x\r"), strings(&["x\r"]));
    assert_eq!(read_file("héllo\nwörld"), strings(&["héllo", "wörld"]));
}

#[test]
fn read_file_of_empty_text_has_no_line() {
    assert_eq!(read_file(""), Vec::<String>::new());
}

#[test]
fn read_file_agrees_with_str_lines() {
    for text in ["", "a", "a\n", "a\r\n\r\nb", "\r\n", "x\ry\nz", "\n\n\n", "tail\r"] {
        let expected: Vec<String> = text.lines().map(String::from).collect();
        assert_eq!(read_file(text), expected, "text {:?}", text);
    }
}

#[test]
fn join_content_uses_newlines() {
    assert_eq!(join_content(&strings(&["a", "b", "c"])), "a\nb\nc");
    assert_eq!(join_content(&strings(&["only"])), "only");
    assert_eq!(join_content(&strings(&[])), "");
    assert_eq!(join_content(&strings(&["", ""])), "\n");
}

#[test]
fn load_after_save_gives_back_the_lines() {
    let lines = strings(&["first", "", "third line", "last"]);
    assert_eq!(read_file(&join_content(&lines)), lines);
}

#[test]
fn load_after_save_loses_a_trailing_empty_line() {
    let lines = strings(&["a", ""]);
    assert_eq!(read_file(&join_content(&lines)), strings(&["a"]));
}

#[test]
fn byte_offsets_of_characters() {
    assert_eq!(byte_len("héllo"), 6);
    assert_eq!(byte_len(""), 0);
    assert_eq!(char_index_of_byte("héllo", 0), Some(0));
    assert_eq!(char_index_of_byte("héllo", 1), Some(1));
    assert_eq!(char_index_of_byte("héllo", 2), None);
    assert_eq!(char_index_of_byte("héllo", 3), Some(2));
    assert_eq!(char_index_of_byte("héllo", 6), Some(5));
    assert_eq!(char_index_of_byte("héllo", 7), None);
}

#[test]
fn character_edits() {
    assert_eq!(remove_char("héllo", 1), "hllo");
    assert_eq!(insert_char("hllo", 1, 'é'), "héllo");
    assert_eq!(insert_char("ab", 2, 'c'), "abc");
    assert_eq!(split_at_char("héllo", 2), ("hé".to_string(), "llo".to_string()));
}
