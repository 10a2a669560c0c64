use csv_transform::todo::format_todo_line;

fn bv(s: &str) -> Vec<u8> {
    s.as_bytes().to_vec()
}

#[test]
fn done_task_is_marked() {
    assert_eq!(format_todo_line(3, &bv("buy milk"), true), bv("- [x] 3: buy milk"));
}

#[test]
fn open_task_has_blank_marker() {
    assert_eq!(format_todo_line(10, &bv("write tests"), false), bv("- [ ] 10: write tests"));
}

#[test]
fn negative_id_is_signed() {
    assert_eq!(format_todo_line(-7, &bv("odd"), false), bv("- [ ] -7: odd"));
}
