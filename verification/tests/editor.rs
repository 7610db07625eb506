use revise::editor::{classify, cursor_cell, last_word_start, Code, Key, LineEditor, Modifier, Step};

fn typed(keys: &[Key]) -> (String, String) {
    let mut editor = LineEditor::new();
    for key in keys {
        editor.press(*key);
    }
    (editor.before_cursor(), editor.line())
}

fn text(line: &str) -> Vec<Key> {
    line.chars().map(Key::Insert).collect()
}

#[test]
fn test_last_word_start() {
    assert_eq!(last_word_start(""), 0);
    assert_eq!(last_word_start("ab"), 0);
    assert_eq!(last_word_start("  "), 0);
    assert_eq!(last_word_start("a "), 0);
    assert_eq!(last_word_start(" a"), 1);
    assert_eq!(last_word_start("hello  world"), 7);
    assert_eq!(last_word_start("hello  world "), 7);
    assert_eq!(last_word_start("hello  world\t \n\t  \t"), 7);
}

#[test]
fn last_word_start_counts_bytes() {
    assert_eq!(last_word_start("\u{e9}t\u{e9} \u{1F600}x "), 6);
    assert_eq!(last_word_start("\u{2003}\u{e9}"), 3);
}

#[test]
fn keys_are_classified() {
    assert_eq!(classify(Code::Char('a'), Modifier::Plain), Key::Insert('a'));
    assert_eq!(classify(Code::Char('A'), Modifier::Shift), Key::Insert('A'));
    assert_eq!(classify(Code::Char('a'), Modifier::Other), Key::Ignore);
    assert_eq!(classify(Code::Char('c'), Modifier::Control), Key::Quit);
    assert_eq!(classify(Code::Char('q'), Modifier::Control), Key::Quit);
    assert_eq!(classify(Code::Char('c'), Modifier::Plain), Key::Insert('c'));
    assert_eq!(classify(Code::Char('h'), Modifier::Control), Key::Backspace);
    assert_eq!(classify(Code::Char('w'), Modifier::Control), Key::DeleteWord);
    assert_eq!(classify(Code::Char('u'), Modifier::Control), Key::Clear);
    assert_eq!(classify(Code::Char('x'), Modifier::Control), Key::Ignore);
    assert_eq!(classify(Code::Backspace, Modifier::Control), Key::Backspace);
    assert_eq!(classify(Code::Delete, Modifier::Plain), Key::Delete);
    assert_eq!(classify(Code::Left, Modifier::Shift), Key::Left);
    assert_eq!(classify(Code::Right, Modifier::Plain), Key::Right);
    assert_eq!(classify(Code::Up, Modifier::Plain), Key::Start);
    assert_eq!(classify(Code::Home, Modifier::Plain), Key::Start);
    assert_eq!(classify(Code::Down, Modifier::Plain), Key::End);
    assert_eq!(classify(Code::End, Modifier::Other), Key::End);
    assert_eq!(classify(Code::Enter, Modifier::Plain), Key::Submit);
    assert_eq!(classify(Code::Other, Modifier::Plain), Key::Ignore);
}

#[test]
fn typing_and_moving() {
    let mut keys = text("helo");
    keys.push(Key::Left);
    keys.push(Key::Insert('l'));
    assert_eq!(typed(&keys), ("hell".to_owned(), "hello".to_owned()));
    keys.push(Key::Start);
    keys.push(Key::Left);
    keys.push(Key::Insert('>'));
    assert_eq!(typed(&keys), (">".to_owned(), ">hello".to_owned()));
    keys.push(Key::End);
    keys.push(Key::Right);
    keys.push(Key::Insert('!'));
    assert_eq!(typed(&keys), (">hello!".to_owned(), ">hello!".to_owned()));
}

#[test]
fn taking_out() {
    let mut keys = text("a\u{e9}c");
    keys.push(Key::Backspace);
    assert_eq!(typed(&keys).1, "a\u{e9}");
    keys.push(Key::Start);
    keys.push(Key::Backspace);
    assert_eq!(typed(&keys).1, "a\u{e9}");
    keys.push(Key::Delete);
    assert_eq!(typed(&keys), ("".to_owned(), "\u{e9}".to_owned()));
    keys.push(Key::End);
    keys.push(Key::Delete);
    assert_eq!(typed(&keys).1, "\u{e9}");
    keys.push(Key::Clear);
    assert_eq!(typed(&keys), ("".to_owned(), "".to_owned()));
}

#[test]
fn taking_out_a_word() {
    let mut keys = text("one two  three");
    keys.push(Key::DeleteWord);
    assert_eq!(typed(&keys), ("one two  ".to_owned(), "one two  ".to_owned()));
    keys.push(Key::DeleteWord);
    assert_eq!(typed(&keys).1, "one ");
    keys.push(Key::DeleteWord);
    assert_eq!(typed(&keys).1, "");
    keys.push(Key::DeleteWord);
    assert_eq!(typed(&keys).1, "");

    let mut keys = text("alpha beta");
    keys.push(Key::Left);
    keys.push(Key::Left);
    keys.push(Key::DeleteWord);
    assert_eq!(typed(&keys), ("alpha ".to_owned(), "alpha ta".to_owned()));
}

#[test]
fn steps() {
    let mut editor = LineEditor::new();
    assert_eq!(editor.press(Key::Insert('x')), Step::Continue);
    assert_eq!(editor.press(Key::Ignore), Step::Continue);
    assert_eq!(editor.press(Key::Left), Step::Continue);
    assert_eq!(editor.press(Key::Quit), Step::Quit);
    assert_eq!(editor.press(Key::Submit), Step::Submit);
    assert_eq!(editor.line(), "x");
}

#[test]
fn widths_are_measured_in_columns() {
    let mut editor = LineEditor::new();
    for key in text("a\u{4e2d}b") {
        editor.press(key);
    }
    assert_eq!(editor.line_width(), 4);
    assert_eq!(editor.cursor_column(), 4);
    editor.press(Key::Left);
    assert_eq!(editor.cursor_column(), 3);
    editor.press(Key::Left);
    assert_eq!(editor.cursor_column(), 1);
}

#[test]
fn the_cursor_runs_on_from_row_to_row() {
    assert_eq!(cursor_cell(6, 2, 0, 80), Some((6, 2)));
    assert_eq!(cursor_cell(6, 2, 73, 80), Some((79, 2)));
    assert_eq!(cursor_cell(6, 2, 74, 80), Some((0, 3)));
    assert_eq!(cursor_cell(6, 2, 200, 80), Some((46, 4)));
    assert_eq!(cursor_cell(6, 2, 10, 0), None);
    assert_eq!(cursor_cell(6, 2, 70000, 80), None);
    assert_eq!(cursor_cell(65535, 0, 1, 80), None);
    assert_eq!(cursor_cell(0, 65535, 80, 80), None);
    assert_eq!(cursor_cell(0, 65535, 79, 80), Some((79, 65535)));
}
