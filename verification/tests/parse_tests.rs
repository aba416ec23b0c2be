use conf_lang::source::{parse, error_line_src, calc_loc_from_sub_row_col};
use conf_lang::loc::Loc;
use conf_lang::parser::{ValueType, Record};

fn texts(c: &conf_lang::conf::RecordContainer) -> Vec<String> {
    let mut v = Vec::new();
    for i in 0..c.value_count() {
        v.push(c.value(i).unwrap().extracted.clone());
    }
    v
}

#[test]
fn parse_nested_records() {
    let conf = parse("a b\n    c 'd e'\n    f\ng\n", true, None).unwrap();
    let root = conf.root();
    assert_eq!(root.child_count(), 2);
    let a = root.child(0).unwrap();
    assert_eq!(texts(&a), vec!["a", "b"]);
    assert_eq!(a.depth(), 1);
    assert_eq!(a.child_count(), 2);
    let c = a.child(0).unwrap();
    assert_eq!(texts(&c), vec!["c", "d e"]);
    assert_eq!(c.value(1).unwrap().value_type, ValueType::Quote);
    assert_eq!(c.depth(), 2);
    assert_eq!(c.parent().unwrap().record_index(), a.record_index());
    let g = root.child(1).unwrap();
    assert_eq!(texts(&g), vec!["g"]);
}

#[test]
fn parse_value_kinds() {
    let src = "x \"a\\tb\\\"c\" {\n  inner {x}\n} `q` ```\nmulti\n``` plain\\ sp\n";
    let conf = parse(src, false, None).unwrap();
    let r = conf.root().child(0).unwrap();
    assert_eq!(texts(&r), vec!["x", "a\tb\"c", "  inner {x}", "q", "multi", "plain sp"]);
    assert_eq!(r.value(1).unwrap().value_type, ValueType::DoubleQuote);
    assert_eq!(r.value(2).unwrap().value_type, ValueType::CurlyBrace);
    assert_eq!(r.value(3).unwrap().value_type, ValueType::BackQuote);
    assert_eq!(r.value(4).unwrap().value_type, ValueType::BackQuote);
    assert_eq!(r.value(5).unwrap().value_type, ValueType::Bare);
}

#[test]
fn parse_comments_and_blank_lines() {
    let conf = parse("# top\n\n   \na # trailing\n# end", true, Some("f.conf")).unwrap();
    let root = conf.root();
    assert_eq!(root.child_count(), 1);
    assert_eq!(texts(&root.child(0).unwrap()), vec!["a"]);
    assert_eq!(conf.path(), Some("f.conf"));
}

#[test]
fn parse_errors() {
    let e = parse("a\n  b\n", true, None).unwrap_err();
    assert_eq!(e.msg, "indents must be four spaces");
    assert_eq!(e.loc.row, 1);
    let e = parse("        a\n", true, None).unwrap_err();
    assert_eq!(e.msg, "too many indents");
    let e = parse("a 'b\n", true, None).unwrap_err();
    assert_eq!(e.msg, "expecting closing quote");
    assert_eq!(e.loc.pos, 2);
    let e = parse("a {b\n", true, None).unwrap_err();
    assert_eq!(e.msg, "expecting closing brace");
    let e = parse("a \"b\n", true, None).unwrap_err();
    assert_eq!(e.msg, "expecting closing double quote");
    let e = parse("a `b\n", true, None).unwrap_err();
    assert_eq!(e.msg, "expecting closing back quote");
    let e = parse("a ```b\n", true, None).unwrap_err();
    assert_eq!(e.msg, "expecting closing back quotes");
    assert!(parse("a b{\n", true, None).is_ok());
    let e = parse("a 'b'c\n", true, None).unwrap_err();
    assert_eq!(e.msg, "unknown error");
}

#[test]
fn error_line_caret() {
    let loc = Loc { pos: 6, row: 1, col: 2, line_start_pos: 4 };
    assert_eq!(error_line_src("abc\n\tdef\n", loc), "\tdef\n\t ^");
    assert_eq!(error_line_src("", loc), "");
}

#[test]
fn sub_row_col_location() {
    let src = "a {\nxy\nzw}\n";
    let start = Loc { pos: 3, row: 0, col: 3, line_start_pos: 0 };
    let end = Loc { pos: 9, row: 2, col: 2, line_start_pos: 7 };
    let l = calc_loc_from_sub_row_col(src, start, end, 1, 1);
    assert_eq!(l.pos, 5);
    assert_eq!(l.line_start_pos, 4);
    assert_eq!(l.row, 1);
    assert_eq!(l.col, 4);
}

#[test]
fn loc_text() {
    let l = Loc { pos: 6, row: 1, col: 2, line_start_pos: 4 };
    assert_eq!(l.to_string(), "line 2, column 3, position 7");
}

#[test]
fn conf_text_lists_records_by_depth() {
    let conf = parse("a 'b c'\n    d\ne\n", true, None).unwrap();
    assert_eq!(conf.to_string(), "Conf\n    \"a\", \"b c\"\n        \"d\"\n    \"e\"\n");
}

fn val(t: &str) -> conf_lang::parser::Value {
    let l = Loc { pos: 0, row: 0, col: 0, line_start_pos: 0 };
    conf_lang::parser::Value { start_loc: l, end_loc: l, extracted: t.to_string(), value_type: ValueType::Bare }
}

#[test]
fn tree_lines_in_order() {
    let records = vec![
        Record { values: vec![], parent: None, children: vec![1, 3] },
        Record { values: vec![val("a"), val("b")], parent: Some(0), children: vec![2] },
        Record { values: vec![val("c")], parent: Some(1), children: vec![] },
        Record { values: vec![val("d")], parent: Some(0), children: vec![] },
    ];
    let lines = conf_lang::conf_text::tree_lines(&records);
    assert_eq!(
        lines,
        vec![(0, "".to_string()), (1, "   a, b".to_string()), (2, "      c".to_string()), (3, "   d".to_string())]
    );
}

#[test]
fn records_compare_by_place() {
    let conf = parse("a\nb\n", true, Some("x.conf")).unwrap();
    let a = conf.root().child(0).unwrap();
    let b = conf.root().child(1).unwrap();
    assert!(a.eq(&a));
    assert!(!a.eq(&b));
    assert_eq!(a.cmp(&b), std::cmp::Ordering::Less);
    assert_eq!(b.partial_cmp(&a), Some(std::cmp::Ordering::Greater));
    let other = parse("a\n", true, Some("w.conf")).unwrap();
    let c = other.root().child(0).unwrap();
    assert_eq!(a.cmp(&c), std::cmp::Ordering::Greater);
}

#[test]
fn ancestors_climb_through_parents() {
    let conf = parse("a\n    b\n        c\n", true, None).unwrap();
    let root = conf.root();
    let a = root.child(0).unwrap();
    let b = a.child(0).unwrap();
    let c = b.child(0).unwrap();
    assert_eq!(c.ancestor(0).unwrap().record_index(), c.parent().unwrap().record_index());
    assert_eq!(c.ancestor(1).unwrap().record_index(), b.ancestor(0).unwrap().record_index());
    assert_eq!(c.ancestor(1).unwrap().record_index(), a.record_index());
    assert_eq!(c.ancestor(2).unwrap().record_index(), root.record_index());
    assert!(c.ancestor(3).is_none());
    let mut up: Vec<usize> = Vec::new();
    let mut it = c.ancestor_iter();
    while let Some(x) = it.next() {
        up.push(x.record_index());
    }
    assert_eq!(up, vec![b.record_index(), a.record_index(), root.record_index()]);
}

#[test]
fn records_are_checked_to_form_a_tree() {
    let good = vec![
        Record { values: vec![], parent: None, children: vec![1, 3] },
        Record { values: vec![val("a")], parent: Some(0), children: vec![2] },
        Record { values: vec![val("c")], parent: Some(1), children: vec![] },
        Record { values: vec![val("d")], parent: Some(0), children: vec![] },
    ];
    assert!(conf_lang::conf_text::is_tree(&good));
    let unlisted = vec![
        Record { values: vec![], parent: None, children: vec![] },
        Record { values: vec![val("a")], parent: Some(0), children: vec![] },
    ];
    assert!(!conf_lang::conf_text::is_tree(&unlisted));
    let unordered = vec![
        Record { values: vec![], parent: None, children: vec![2, 1] },
        Record { values: vec![val("a")], parent: Some(0), children: vec![] },
        Record { values: vec![val("b")], parent: Some(0), children: vec![] },
    ];
    assert!(!conf_lang::conf_text::is_tree(&unordered));
    let top_with_values = vec![Record { values: vec![val("x")], parent: None, children: vec![] }];
    assert!(!conf_lang::conf_text::is_tree(&top_with_values));
    assert!(!conf_lang::conf_text::is_tree(&Vec::new()));
}

#[test]
fn escaped_braces_do_not_nest() {
    let conf = parse("x {\"\\{\"}\ny {a\\}b}\n", true, None).unwrap();
    let x = conf.root().child(0).unwrap();
    assert_eq!(texts(&x), vec!["x", "\"\\{\""]);
    assert_eq!(x.value(1).unwrap().value_type, ValueType::CurlyBrace);
    let y = conf.root().child(1).unwrap();
    assert_eq!(texts(&y), vec!["y", "a\\}b"]);
}

#[test]
fn children_are_iterated_once_from_either_end() {
    let conf = parse("a\n    b\n    c\n    d\n", true, None).unwrap();
    let a = conf.root().child(0).unwrap();
    let mut it = a.child_iter();
    let mut got: Vec<usize> = Vec::new();
    got.push(it.next().unwrap().record_index());
    got.push(it.next_back().unwrap().record_index());
    got.push(it.next().unwrap().record_index());
    assert!(it.next().is_none());
    assert!(it.next_back().is_none());
    let b = a.child(0).unwrap().record_index();
    let c = a.child(1).unwrap().record_index();
    let d = a.child(2).unwrap().record_index();
    assert_eq!(got, vec![b, d, c]);
    let mut it = a.child_iter();
    let x = it.next().unwrap();
    assert_eq!(x.depth(), a.depth() + 1);
}

#[test]
fn values_are_iterated_in_order() {
    let conf = parse("a b 'c'\n", true, None).unwrap();
    let r = conf.root().child(0).unwrap();
    let mut it = r.value_iter();
    let mut got: Vec<String> = Vec::new();
    while let Some(v) = it.next() {
        got.push(v.extracted.clone());
    }
    assert_eq!(got, vec!["a", "b", "c"]);
    assert!(conf.root().value_iter().next().is_none());
}

#[test]
fn lexer_saves_and_restores_states() {
    let chars: Vec<char> = "abc".chars().collect();
    let mut l = conf_lang::lexer::Lexer::new(&chars);
    assert_eq!(l.stack_size(), 0);
    l.push();
    l.push();
    assert_eq!(l.stack_size(), 2);
    l.skip(1);
    l.pop_discard();
    assert_eq!(l.stack_size(), 1);
    assert_eq!(l.loc().pos, 0);
    l.skip(2);
    l.pop_keep();
    assert_eq!(l.stack_size(), 0);
    assert_eq!(l.loc().pos, 2);
}

#[test]
fn parse_error_message_quotes_path_as_path() {
    let e = parse("a\n  b\n", true, Some("it's.conf")).unwrap_err();
    let m = e.get_msg(None, Some("it's.conf"));
    let quoted = format!("{:?}", std::path::Path::new("it's.conf"));
    assert!(m.contains(&quoted));
}

#[test]
fn sub_loc_on_the_last_line_gives_the_value_end() {
    let src = "a {\nxy\nzw}\n";
    let start = Loc { pos: 3, row: 0, col: 3, line_start_pos: 0 };
    let end = Loc { pos: 9, row: 2, col: 2, line_start_pos: 7 };
    let l = calc_loc_from_sub_row_col(src, start, end, 2, 1);
    assert_eq!(l.pos, 9);
    assert_eq!(l.line_start_pos, 7);
    assert_eq!(l.row, 2);
    assert_eq!(l.col, 4);
    let first = calc_loc_from_sub_row_col(src, start, end, 0, 2);
    assert_eq!(first.pos, 2);
    assert_eq!(first.line_start_pos, 0);
}

#[test]
fn lexer_discard_undoes_nested_reading() {
    let chars: Vec<char> = "ab\ncd".chars().collect();
    let mut l = conf_lang::lexer::Lexer::new(&chars);
    l.skip(1);
    let before = l.loc();
    l.push();
    l.skip(1);
    l.push();
    l.skip(1);
    l.pop_keep();
    l.push();
    l.skip(1);
    l.pop_discard();
    assert_eq!(l.stack_size(), 1);
    assert_eq!(l.loc().pos, 3);
    assert_eq!(l.loc().row, 1);
    l.pop_discard();
    assert_eq!(l.stack_size(), 0);
    assert_eq!(l.loc(), before);
}
