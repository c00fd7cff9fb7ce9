use runk::input::InputState;
use runk::motion::{
    adv, char_at, class_of, first_nonblank, is_blank, is_section, nchars, para_back, para_fwd, retr,
    section_back, section_fwd, word_backward, word_end, word_forward,
};
use runk::notes::SelKind;

fn lines(s: &[&str]) -> Vec<String> {
    s.iter().map(|s| s.to_string()).collect()
}

fn input(buffer: &str, cursor: usize) -> InputState {
    InputState {
        buffer: buffer.to_string(),
        cursor,
        kind: SelKind::Char,
        start: (1, 0),
        end: (1, 0),
        editing: None,
    }
}

#[test]
fn insertion_and_removal_work_on_characters() {
    let mut i = input("aé", 1);
    i.insert('ß');
    assert_eq!((i.buffer.as_str(), i.cursor), ("aßé", 2));
    assert_eq!(i.char_len(), 3);
    assert_eq!((i.byte_at(0), i.byte_at(2), i.byte_at(9)), (0, 3, 5));
    i.delete();
    assert_eq!((i.buffer.as_str(), i.cursor), ("aß", 2));
    i.delete();
    i.backspace();
    assert_eq!((i.buffer.as_str(), i.cursor), ("a", 1));
    i.backspace();
    i.backspace();
    assert_eq!((i.buffer.as_str(), i.cursor), ("", 0));
}

#[test]
fn backspace_takes_an_insertion_back() {
    let mut i = input("xyz", 2);
    i.insert('\n');
    i.backspace();
    assert_eq!((i.buffer.as_str(), i.cursor), ("xyz", 2));
}

#[test]
fn insertion_point_moves_by_rows_and_columns() {
    let mut i = input("long row\nab\n\nlast", 6);
    assert_eq!(i.line_col(), (0, 6));
    i.down();
    assert_eq!((i.cursor, i.line_col()), (11, (1, 2)));
    i.down();
    assert_eq!(i.line_col(), (2, 0));
    i.down();
    assert_eq!(i.line_col(), (3, 0));
    i.end();
    assert_eq!(i.line_col(), (3, 4));
    i.down();
    assert_eq!(i.cursor, 17);
    i.right();
    assert_eq!(i.cursor, 17);
    i.home();
    assert_eq!(i.cursor, 13);
    i.up();
    i.up();
    i.up();
    assert_eq!(i.line_col(), (0, 0));
    i.up();
    i.left();
    assert_eq!(i.cursor, 0);
    i.right();
    assert_eq!(i.cursor, 1);
}

#[test]
fn rows_and_columns_lead_back_to_the_index() {
    let text = "ab\n\ncd\n";
    for cursor in 0..=text.chars().count() {
        let i = input(text, cursor);
        let (line, col) = i.line_col();
        assert_eq!(i.index_of(line, col), cursor);
    }
    assert_eq!(input(text, 0).index_of(9, 0), 7);
    assert_eq!(input(text, 0).index_of(0, 9), 2);
}

#[test]
fn characters_have_classes() {
    assert_eq!(class_of(None), 0);
    assert_eq!(class_of(Some('\t')), 0);
    assert_eq!(class_of(Some('\u{a0}')), 0);
    assert_eq!(class_of(Some('é')), 1);
    assert_eq!(class_of(Some('_')), 1);
    assert_eq!(class_of(Some('-')), 2);
    let ls = lines(&["ab", ""]);
    assert_eq!((nchars(&ls, 0), nchars(&ls, 1), nchars(&ls, 3)), (0, 2, 0));
    assert_eq!((char_at(&ls, 1, 1), char_at(&ls, 1, 2), char_at(&ls, 0, 0)), (Some('b'), None, None));
}

#[test]
fn steps_roll_over_lines() {
    let ls = lines(&["ab", "", "c"]);
    assert_eq!(adv(&ls, 1, 0), Some((1, 1)));
    assert_eq!(adv(&ls, 1, 1), Some((2, 0)));
    assert_eq!(adv(&ls, 2, 0), Some((3, 0)));
    assert_eq!(adv(&ls, 3, 0), None);
    assert_eq!(adv(&ls, 1, usize::MAX), Some((2, 0)));
    assert_eq!(retr(&ls, 3, 0), Some((2, 0)));
    assert_eq!(retr(&ls, 2, 0), Some((1, 1)));
    assert_eq!(retr(&ls, 1, 0), None);
}

#[test]
fn words_are_walked() {
    let ls = lines(&["foo.bar  baz", "", "  qux"]);
    assert_eq!(word_forward(&ls, 1, 0), (1, 3));
    assert_eq!(word_forward(&ls, 1, 3), (1, 4));
    assert_eq!(word_forward(&ls, 1, 4), (1, 9));
    assert_eq!(word_forward(&ls, 1, 9), (3, 2));
    assert_eq!(word_forward(&ls, 3, 4), (3, 4));
    assert_eq!(word_end(&ls, 1, 0), (1, 2));
    assert_eq!(word_end(&ls, 1, 2), (1, 3));
    assert_eq!(word_end(&ls, 1, 6), (1, 11));
    assert_eq!(word_backward(&ls, 3, 2), (1, 9));
    assert_eq!(word_backward(&ls, 1, 9), (1, 4));
    assert_eq!(word_backward(&ls, 1, 0), (1, 0));
}

#[test]
fn line_ends_end_words() {
    let ls = lines(&["foo", "bar"]);
    assert_eq!(word_backward(&ls, 2, 1), (2, 0));
    assert_eq!(word_backward(&ls, 2, 0), (1, 0));
    assert_eq!(word_forward(&ls, 1, 0), (2, 0));
    assert_eq!(word_forward(&ls, 1, 2), (2, 0));
    assert_eq!(word_forward(&ls, 2, 0), (2, 2));
    assert_eq!(word_end(&ls, 1, 0), (1, 2));
    assert_eq!(word_end(&ls, 1, 2), (2, 2));
}

#[test]
fn paragraph_motions_stop_at_the_next_blank_line() {
    let ls = lines(&["a", "", "b", "", "c"]);
    assert_eq!(para_fwd(&ls, 1), 2);
    assert_eq!(para_fwd(&ls, 2), 4);
    assert_eq!(para_fwd(&ls, 4), 5);
    assert_eq!(para_back(&ls, 5), 4);
    assert_eq!(para_back(&ls, 4), 2);
    assert_eq!(para_back(&ls, 3), 2);
    assert_eq!(para_back(&ls, 1), 1);
}

#[test]
fn paragraphs_and_sections_are_walked() {
    let ls = lines(&["fn a() {", "  x", "", " \t", "fn b() {", "  y", "}"]);
    assert!(is_blank(&ls, 4) && !is_blank(&ls, 1) && is_blank(&ls, 99));
    assert!(is_section(&ls, 1) && !is_section(&ls, 2) && !is_section(&ls, 3));
    assert_eq!(para_back(&ls, 7), 4);
    assert_eq!(para_back(&ls, 5), 4);
    assert_eq!(para_back(&ls, 4), 1);
    assert_eq!(para_fwd(&ls, 1), 3);
    assert_eq!(para_fwd(&ls, 3), 7);
    assert_eq!(para_fwd(&[], 1), 1);
    assert_eq!(section_fwd(&ls, 1), 5);
    assert_eq!(section_fwd(&ls, 7), 7);
    assert_eq!(section_back(&ls, 7), 5);
    assert_eq!(section_back(&ls, 2), 1);
    assert_eq!(first_nonblank(&ls, 2), 2);
    assert_eq!(first_nonblank(&ls, 4), 0);
}
