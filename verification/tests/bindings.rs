use piecetext::bindings::{key, make_binding, modifier, split, trim, ALT, CTRL, META, SHIFT};

#[test]
fn modifier_bits() {
    assert_eq!((CTRL, SHIFT, ALT, META), (1, 2, 4, 8));
    assert_eq!(modifier("CTRL"), 1);
    assert_eq!(modifier("SHIFT"), 2);
    assert_eq!(modifier("ALT"), 4);
    assert_eq!(modifier("META"), 8);
    assert_eq!(modifier("ctrl"), 0);
    assert_eq!(modifier("a"), 0);
    assert_eq!(modifier(""), 0);
}

#[test]
fn key_names() {
    assert_eq!(key("BACKSPACE"), "\x08");
    assert_eq!(key("ESCAPE"), "\x1B");
    assert_eq!(key("RETURN"), "\n");
    assert_eq!(key("LEFT"), "\u{00FDD0}");
    assert_eq!(key("RIGHT"), "\u{00FDD1}");
    assert_eq!(key("UP"), "\u{00FDD2}");
    assert_eq!(key("DOWN"), "\u{00FDD3}");
    assert_eq!(key("a"), "a");
    assert_eq!(key("escape"), "escape");
}

#[test]
fn split_cuts_at_each_separator() {
    assert_eq!(split("a,b,c", ','), vec!["a", "b", "c"]);
    assert_eq!(split("", ','), vec![""]);
    assert_eq!(split(",", ','), vec!["", ""]);
    assert_eq!(split("a,,b,", ','), vec!["a", "", "b", ""]);
    assert_eq!(split("abc", '|'), vec!["abc"]);
    assert_eq!(split("\u{e9}|\u{1F1F7}", '|'), vec!["\u{e9}", "\u{1F1F7}"]);
    for text in ["x, y ,,z", "", ",a", "no separator"] {
        let expected: Vec<&str> = text.split(',').collect();
        assert_eq!(split(text, ','), expected);
    }
}

#[test]
fn trim_takes_white_space_off_both_ends() {
    assert_eq!(trim("  a b \t\n"), "a b");
    assert_eq!(trim(""), "");
    assert_eq!(trim("   "), "");
    assert_eq!(trim("x"), "x");
    assert_eq!(trim("\u{2003}\u{e9} \u{3000}"), "\u{e9}");
    for text in [" a", "a ", "\r\n", " \u{a0}b\u{a0} ", "a  b"] {
        assert_eq!(trim(text), text.trim());
    }
}

#[test]
fn binding_of_one_key() {
    assert_eq!(make_binding("a"), ("a".to_string(), vec![0]));
    assert_eq!(make_binding("ESCAPE"), ("\x1B".to_string(), vec![0]));
}

#[test]
fn binding_with_modifiers() {
    assert_eq!(make_binding("CTRL | a"), ("a".to_string(), vec![1]));
    assert_eq!(make_binding("a | CTRL | SHIFT"), ("a".to_string(), vec![3]));
    assert_eq!(make_binding("ALT|META|x"), ("x".to_string(), vec![12]));
    assert_eq!(make_binding("CTRL|CTRL|x"), ("x".to_string(), vec![1]));
}

#[test]
fn bindings_in_a_row() {
    assert_eq!(make_binding("d, d"), ("dd".to_string(), vec![0, 0]));
    assert_eq!(
        make_binding("CTRL | a, b, SHIFT | RETURN"),
        ("ab\n".to_string(), vec![1, 0, 2])
    );
}

#[test]
fn binding_without_a_key_has_a_question_mark() {
    assert_eq!(make_binding("CTRL"), ("?".to_string(), vec![1]));
    assert_eq!(make_binding("CTRL, SHIFT | ALT"), ("??".to_string(), vec![1, 6]));
}

#[test]
fn binding_takes_the_last_key_named() {
    assert_eq!(make_binding("a | b"), ("b".to_string(), vec![0]));
    assert_eq!(make_binding("a | CTRL"), ("a".to_string(), vec![1]));
}

#[test]
fn empty_bindings_name_the_empty_key() {
    assert_eq!(make_binding(""), ("".to_string(), vec![0]));
    assert_eq!(make_binding(" , "), ("".to_string(), vec![0, 0]));
}
