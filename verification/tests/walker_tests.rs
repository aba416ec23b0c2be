use conf_lang::source::parse;
use conf_lang::walker::Walker;
use conf_lang::walker_error::{Expecter, WalkerErrorType, WalkerErrors};
use conf_lang::walker_container::WalkerRecordContainer;

fn simple_walker() -> Walker {
    let mut w = Walker::new();
    w.branch("root").tags(&["a"]).entry().str().tagless().entry().str().str();
    w
}

fn no_parse(_n: &str, _v: &str) -> Option<()> {
    None
}

#[test]
fn apply_simple_visits_accepted_records() {
    let conf = parse("a x\nfoo bar\n", true, None).unwrap();
    let w = simple_walker();
    assert!(w.well_formed());
    let mut seen: Vec<(String, String, String, usize)> = Vec::new();
    let res = w.apply_simple("root", conf.root(), no_parse, |r: WalkerRecordContainer<'_, '_, ()>| {
        seen.push((r.branch().to_string(), r.tag().to_string(), r.str(0).to_string(), r.order()));
    });
    assert!(res.is_ok());
    assert_eq!(
        seen,
        vec![
            ("root".to_string(), "a".to_string(), "x".to_string(), 0),
            ("root".to_string(), "".to_string(), "foo".to_string(), 1),
        ]
    );
}

#[test]
fn wrong_value_counts_are_reported_in_order() {
    let conf = parse("a\nfoo\n", true, None).unwrap();
    let w = simple_walker();
    let errs: WalkerErrors<()> = w.apply_simple("root", conf.root(), no_parse, |_r: WalkerRecordContainer<'_, '_, ()>| {}).unwrap_err();
    assert_eq!(errs.paths, vec![None]);
    assert_eq!(errs.errors.len(), 1);
    assert_eq!(errs.errors[0].len(), 2);
    assert!(matches!(errs.errors[0][0].error_type, WalkerErrorType::ParamsIncorrectNum));
    assert_eq!(errs.errors[0][0].loc.pos, 0);
    assert!(matches!(errs.errors[0][1].error_type, WalkerErrorType::ParamsIncorrectNum));
    assert_eq!(errs.errors[0][1].loc.pos, 2);
    assert_eq!(errs.errors[0][1].loc.row, 1);
    let msg = errs.get_msg(|_p: &str| None);
    assert_eq!(
        msg,
        "Walker errors:\n  1) ParamsIncorrectNum at line 1, column 1, position 1\n  2) ParamsIncorrectNum at line 2, column 1, position 3\n"
    );
}

#[test]
fn named_values_are_parsed() {
    let conf = parse("12\nxy\n", true, None).unwrap();
    let mut w = Walker::new();
    w.branch("root").tagless().entry().named_param("int");
    let parser = |n: &str, v: &str| -> Option<i64> {
        if n == "int" {
            v.parse::<i64>().ok()
        } else {
            None
        }
    };
    let mut got: Vec<i64> = Vec::new();
    let errs = w
        .apply_simple("root", conf.root(), parser, |r: WalkerRecordContainer<'_, '_, i64>| {
            got.push(*r.get_parsed(0).unwrap());
            assert_eq!(r.parsed_name(0), Some("int"));
        })
        .unwrap_err();
    assert_eq!(got, vec![12]);
    assert_eq!(errs.errors[0].len(), 1);
    assert!(matches!(errs.errors[0][0].error_type, WalkerErrorType::ParamParseError));
    assert_eq!(errs.errors[0][0].loc.pos, 3);
}

#[test]
fn children_are_walked_against_their_branch() {
    let conf = parse("a\n    b\nc\n", true, None).unwrap();
    let mut w = Walker::new();
    w.branch("root").tagless().entry().str().children("child");
    w.branch("child").tagless().entry().str();
    assert!(w.well_formed());
    let mut seen: Vec<(String, String, usize)> = Vec::new();
    let errs = w
        .apply_simple("root", conf.root(), no_parse, |r: WalkerRecordContainer<'_, '_, ()>| {
            seen.push((r.branch().to_string(), r.str(0).to_string(), r.depth()));
        })
        .unwrap_err();
    assert_eq!(
        seen,
        vec![
            ("root".to_string(), "a".to_string(), 0),
            ("child".to_string(), "b".to_string(), 1),
            ("root".to_string(), "c".to_string(), 0),
        ]
    );
    assert_eq!(errs.errors[0].len(), 1);
    assert!(matches!(errs.errors[0][0].error_type, WalkerErrorType::ChildrenExpected));
    assert_eq!(errs.errors[0][0].loc.row, 2);
}

#[test]
fn unexpected_children_are_reported() {
    let conf = parse("a\n    b\n", true, None).unwrap();
    let mut w = Walker::new();
    w.branch("root").tagless().entry().str();
    let errs = w.apply_simple("root", conf.root(), no_parse, |_r: WalkerRecordContainer<'_, '_, ()>| {}).unwrap_err();
    assert_eq!(errs.errors[0].len(), 1);
    assert!(matches!(errs.errors[0][0].error_type, WalkerErrorType::ChildrenNotExpected));
    assert_eq!(errs.errors[0][0].loc.pos, 0);
}

#[test]
fn skipped_child_errors_are_not_reported() {
    let conf = parse("a\n    b\n", true, None).unwrap();
    let mut w = Walker::new();
    w.branch("root").tagless().entry().str().skip_child_errs();
    assert!(w.apply_simple("root", conf.root(), no_parse, |_r: WalkerRecordContainer<'_, '_, ()>| {}).is_ok());
}

#[test]
fn tag_once_rejects_a_second_use() {
    let conf = parse("x\nx\n", true, None).unwrap();
    let mut w = Walker::new();
    w.branch("root").branch_tag_once(&["x"]).tags(&["x"]).entry();
    let errs = w.apply_simple("root", conf.root(), no_parse, |_r: WalkerRecordContainer<'_, '_, ()>| {}).unwrap_err();
    assert_eq!(errs.errors[0].len(), 2);
    assert!(matches!(errs.errors[0][0].error_type, WalkerErrorType::Unknown));
    assert!(matches!(errs.errors[0][1].error_type, WalkerErrorType::ExpectedTagOnce));
    assert_eq!(errs.errors[0][0].loc.pos, 2);
    assert_eq!(errs.errors[0][1].loc.pos, 2);
}

#[test]
fn unknown_records_can_be_ignored() {
    let conf = parse("y\n", true, None).unwrap();
    let mut w = Walker::new();
    w.branch("root").tags(&["x"]).entry();
    let errs = w.apply_simple("root", conf.root(), no_parse, |_r: WalkerRecordContainer<'_, '_, ()>| {}).unwrap_err();
    assert!(matches!(errs.errors[0][0].error_type, WalkerErrorType::Unknown));
    let mut w2 = Walker::new();
    w2.branch("root").skip_node_errs().tags(&["x"]).entry();
    assert!(w2.apply_simple("root", conf.root(), no_parse, |_r: WalkerRecordContainer<'_, '_, ()>| {}).is_ok());
}

#[test]
fn callback_errors_are_reported() {
    let conf = parse("x 1\nx 2\n", true, None).unwrap();
    let mut w = Walker::new();
    w.branch("root").tags(&["x"]).entry().str();
    let errs = w
        .apply("root", conf.root(), no_parse, |r: WalkerRecordContainer<'_, '_, ()>| {
            if r.str(0) == "2" {
                Err((1, "two"))
            } else if r.str(0) == "1" {
                Err((5, "five"))
            } else {
                Ok(None)
            }
        })
        .unwrap_err();
    assert_eq!(errs.errors[0].len(), 2);
    assert!(matches!(errs.errors[0][0].error_type, WalkerErrorType::CustomInvalidValInd(5, "five")));
    assert_eq!(errs.errors[0][0].loc.pos, 0);
    assert!(matches!(errs.errors[0][1].error_type, WalkerErrorType::Custom("two")));
    assert_eq!(errs.errors[0][1].loc.pos, 6);
    let msg = errs.get_msg(|_p: &str| None);
    assert_eq!(
        msg,
        "Walker errors:\n  1) CustomInvalidValInd(5, \"five\") at line 1, column 1, position 1\n  2) Custom(\"two\") at line 2, column 3, position 7\n"
    );
}

#[test]
fn apply_ext_calls_on_enter_and_exit() {
    let conf = parse("a\n    b\n", true, None).unwrap();
    let mut w = Walker::new();
    w.branch("root").tagless().entry().str().children("child");
    w.branch("child").tagless().entry().str();
    let mut seen: Vec<(String, bool)> = Vec::new();
    let res: Result<(), WalkerErrors<()>> = w.apply_ext("root", conf.root(), no_parse, |r: WalkerRecordContainer<'_, '_, ()>, enter: bool| {
        seen.push((r.str(0).to_string(), enter));
        Ok(None)
    });
    assert!(res.is_ok());
    assert_eq!(
        seen,
        vec![
            ("a".to_string(), true),
            ("b".to_string(), true),
            ("b".to_string(), false),
            ("a".to_string(), false),
        ]
    );
}

#[test]
fn apply_simple_ext_calls_on_enter_and_exit() {
    let conf = parse("a\n    b\n", true, None).unwrap();
    let mut w = Walker::new();
    w.branch("root").tagless().entry().str().children("child");
    w.branch("child").tagless().entry().str();
    let mut seen: Vec<(String, bool)> = Vec::new();
    let res = w.apply_simple_ext("root", conf.root(), no_parse, |r: WalkerRecordContainer<'_, '_, ()>, enter: bool| {
        seen.push((r.str(0).to_string(), enter));
    });
    assert!(res.is_ok());
    assert_eq!(
        seen,
        vec![
            ("a".to_string(), true),
            ("b".to_string(), true),
            ("b".to_string(), false),
            ("a".to_string(), false),
        ]
    );
}

#[test]
fn apply_simple_calls_in_document_order() {
    let conf = parse("a\n    b\n    d\n", false, None).unwrap();
    let mut w = Walker::new();
    w.branch("root").tagless().entry().str().children("c");
    w.branch("c").tagless().entry().str();
    let mut seen: Vec<String> = Vec::new();
    let res = w.apply_simple("root", conf.root(), no_parse, |r: WalkerRecordContainer<'_, '_, ()>| {
        seen.push(r.str(0).to_string());
    });
    assert!(res.is_ok());
    assert_eq!(seen, vec!["a".to_string(), "b".to_string(), "d".to_string()]);
}

#[test]
fn included_records_are_walked_in_place() {
    let conf = parse("inc\nx\n    y\n", true, None).unwrap();
    let x = conf.root().child(1).unwrap();
    let mut w = Walker::new();
    w.branch("root").tagless().entry().str().skip_child_errs();
    let mut seen: Vec<String> = Vec::new();
    let res = w.apply_ext("root", conf.root(), no_parse, |r: WalkerRecordContainer<'_, '_, ()>, enter: bool| -> Result<_, (usize, ())> {
        if enter {
            seen.push(r.str(0).to_string());
            if r.str(0) == "inc" {
                return Ok(Some(x));
            }
        }
        Ok(None)
    });
    assert!(res.is_ok());
    assert_eq!(seen, vec!["inc".to_string(), "y".to_string(), "x".to_string()]);
}

#[test]
fn from_conf_builds_a_walker() {
    let schema = parse(
        "root\n    tags a\n        entry any\n    tagless\n        entry any any\n",
        true,
        None,
    )
    .unwrap();
    let w = Walker::from_conf(&schema).unwrap();
    assert!(w.well_formed());
    let conf = parse("a x\nfoo bar\n", true, None).unwrap();
    let mut seen: Vec<String> = Vec::new();
    let res = w.apply_simple("root", conf.root(), no_parse, |r: WalkerRecordContainer<'_, '_, ()>| {
        seen.push(r.str(0).to_string());
    });
    assert!(res.is_ok());
    assert_eq!(seen, vec!["x".to_string(), "foo".to_string()]);
    let bad = parse("a\n", true, None).unwrap();
    assert!(w.apply_simple("root", bad.root(), no_parse, |_r: WalkerRecordContainer<'_, '_, ()>| {}).is_err());
}

#[test]
fn from_conf_reports_schema_errors() {
    let schema = parse("root\n    bogus\n", true, None).unwrap();
    let errs = match Walker::from_conf(&schema) {
        Ok(_) => panic!("expected errors"),
        Err(e) => e,
    };
    assert_eq!(errs.errors[0].len(), 1);
    assert!(matches!(errs.errors[0][0].error_type, WalkerErrorType::Unknown));
    assert_eq!(errs.errors[0][0].loc.row, 1);
}

#[test]
fn from_conf_children_and_labels() {
    let schema = parse(
        "root\n    tagless\n        entry any\n            label item\n            children sub\nsub\n    tagless\n        entry any\n",
        true,
        None,
    )
    .unwrap();
    let w = Walker::from_conf(&schema).unwrap();
    assert!(w.well_formed());
    let conf = parse("p\n    q\n", true, None).unwrap();
    let mut seen: Vec<(String, String)> = Vec::new();
    let res = w.apply_simple("root", conf.root(), no_parse, |r: WalkerRecordContainer<'_, '_, ()>| {
        seen.push((r.label().to_string(), r.branch().to_string()));
    });
    assert!(res.is_ok());
    assert_eq!(seen, vec![("item".to_string(), "root".to_string()), ("".to_string(), "sub".to_string())]);
}

#[test]
fn missing_branches_make_a_walker_ill_formed() {
    let mut w = Walker::new();
    w.branch("root").tagless().entry().str().children("nowhere");
    assert!(!w.well_formed());
    let mut w2 = Walker::new();
    w2.branch("root").tagless().entry().repeat();
    assert!(!w2.well_formed());
}

#[test]
fn expecter_marks_drop_or_keep_errors() {
    let conf = parse("a\n", true, None).unwrap();
    let rec = conf.root().child(0).unwrap();
    let mut x: Expecter<'_, ()> = Expecter::new();
    assert!(!x.has_errors());
    x.push();
    x.expect(rec, 0, WalkerErrorType::Unknown);
    assert!(x.has_errors());
    x.pop_discard();
    assert!(!x.has_errors());
    x.push();
    x.expect(rec, 0, WalkerErrorType::Unknown);
    x.pop_keep();
    assert!(x.has_errors());
    let errs = x.get_errors();
    assert_eq!(errs.errors[0].len(), 1);
    let mut out = String::new();
    x.write_fmt(&mut out);
    assert_eq!(out, "");
}

#[test]
fn repeated_errors_are_reported_once() {
    let conf = parse("a\n", true, None).unwrap();
    let rec = conf.root().child(0).unwrap();
    let mut x: Expecter<'_, ()> = Expecter::new();
    x.expect(rec, 0, WalkerErrorType::Unknown);
    x.expect(rec, 0, WalkerErrorType::Unknown);
    x.expect(rec, 0, WalkerErrorType::ParamsIncorrectNum);
    let errs = x.get_errors();
    assert_eq!(errs.errors[0].len(), 2);
    assert!(matches!(errs.errors[0][0].error_type, WalkerErrorType::ParamsIncorrectNum));
    assert!(matches!(errs.errors[0][1].error_type, WalkerErrorType::Unknown));
}

#[test]
fn errors_are_grouped_by_path() {
    let c1 = parse("a\n", true, Some("one.conf")).unwrap();
    let c2 = parse("b\n", true, Some("two.conf")).unwrap();
    let r1 = c1.root().child(0).unwrap();
    let r2 = c2.root().child(0).unwrap();
    let mut x: Expecter<'_, ()> = Expecter::new();
    x.expect(r2, 0, WalkerErrorType::Unknown);
    x.expect(r1, 0, WalkerErrorType::Unknown);
    let errs = x.get_errors();
    assert_eq!(errs.paths, vec![Some("one.conf".to_string()), Some("two.conf".to_string())]);
    let msg = errs.get_msg(|p: &str| if p == "one.conf" { Some("a\n") } else { None });
    assert_eq!(
        msg,
        "Walker error in config file: \"one.conf\"\n  1) Unknown at line 1, column 1, position 1\na\n^\nWalker error in config file: \"two.conf\"\n  1) Unknown at line 1, column 1, position 1\n"
    );
}

#[test]
fn errors_found_late_are_reported_in_place() {
    let conf = parse("a\n    b c\n", true, None).unwrap();
    let mut w = Walker::new();
    w.branch("root").tagless().entry().str().children("child");
    w.branch("child").tagless().entry().str();
    let errs = w
        .apply_ext("root", conf.root(), no_parse, |r: WalkerRecordContainer<'_, '_, ()>, enter: bool| {
            if !enter && r.str(0) == "a" {
                Err((0, "late"))
            } else {
                Ok(None)
            }
        })
        .unwrap_err();
    assert_eq!(errs.paths, vec![None]);
    assert_eq!(errs.errors[0].len(), 2);
    assert!(matches!(errs.errors[0][0].error_type, WalkerErrorType::Custom("late")));
    assert_eq!(errs.errors[0][0].loc.pos, 0);
    assert!(matches!(errs.errors[0][1].error_type, WalkerErrorType::ParamsIncorrectNum));
    assert_eq!(errs.errors[0][1].loc.pos, 6);
}

#[test]
fn paths_are_ordered_and_grouped_as_file_paths() {
    let c1 = parse("a\n", true, Some("a.b")).unwrap();
    let c2 = parse("b\n", true, Some("a/b")).unwrap();
    let c3 = parse("c\n", true, Some("a//b/")).unwrap();
    let r1 = c1.root().child(0).unwrap();
    let r2 = c2.root().child(0).unwrap();
    let r3 = c3.root().child(0).unwrap();
    let mut x: Expecter<'_, ()> = Expecter::new();
    x.expect(r1, 0, WalkerErrorType::Unknown);
    x.expect(r3, 0, WalkerErrorType::ParamsIncorrectNum);
    x.expect(r2, 0, WalkerErrorType::Unknown);
    let errs = x.get_errors();
    assert_eq!(errs.paths.len(), 2);
    assert_eq!(errs.paths[1], Some("a.b".to_string()));
    assert_eq!(errs.errors[0].len(), 2);
    assert_eq!(errs.errors[1].len(), 1);
    assert_eq!(errs.paths[0], Some("a//b/".to_string()));
    assert!(r2.eq(&r3));
    assert!(!r1.eq(&r2));
    assert_eq!(r1.cmp(&r2), std::cmp::Ordering::Greater);
}

#[test]
fn paths_in_messages_are_quoted_as_paths() {
    let c = parse("b\n", true, Some("it's.conf")).unwrap();
    let r = c.root().child(0).unwrap();
    let mut x: Expecter<'_, ()> = Expecter::new();
    x.expect(r, 0, WalkerErrorType::Unknown);
    let msg = x.get_errors().get_msg(|_p: &str| None);
    let quoted = format!("{:?}", std::path::Path::new("it's.conf"));
    assert!(msg.starts_with(&format!("Walker error in config file: {}\n", quoted)));
}

#[test]
fn ancestors_reach_exactly_as_deep_as_the_record() {
    let conf = parse("a\n    b\n        c\n", true, None).unwrap();
    let mut w = Walker::new();
    w.branch("root").tagless().entry().str().children("mid");
    w.branch("mid").tagless().entry().str().children("leaf");
    w.branch("leaf").tagless().entry().str();
    assert!(w.well_formed());
    let mut seen: Vec<(String, usize, Vec<String>, bool)> = Vec::new();
    let res = w.apply_simple("root", conf.root(), no_parse, |r: WalkerRecordContainer<'_, '_, ()>| {
        let d = r.depth();
        let mut chain: Vec<String> = Vec::new();
        for k in 0..d {
            let a = r.get_ancestor(k).unwrap();
            assert_eq!(a.depth() + k + 1, d);
            chain.push(a.str(0).to_string());
        }
        if d > 0 {
            assert_eq!(r.get_ancestor(0).unwrap().walker_record_index, r.get_parent().unwrap().walker_record_index);
        }
        seen.push((r.str(0).to_string(), d, chain, r.get_ancestor(d).is_none()));
    });
    assert!(res.is_ok());
    assert_eq!(
        seen,
        vec![
            ("a".to_string(), 0, vec![], true),
            ("b".to_string(), 1, vec!["a".to_string()], true),
            ("c".to_string(), 2, vec!["b".to_string(), "a".to_string()], true),
        ]
    );
}

#[test]
fn discard_drops_errors_of_nested_marks() {
    let conf = parse("a\nb\n", true, None).unwrap();
    let ra = conf.root().child(0).unwrap();
    let rb = conf.root().child(1).unwrap();
    let mut x: Expecter<'_, ()> = Expecter::new();
    x.expect(ra, 0, WalkerErrorType::Unknown);
    x.push();
    x.expect(rb, 0, WalkerErrorType::Unknown);
    x.push();
    x.expect(rb, 0, WalkerErrorType::ChildrenExpected);
    x.pop_keep();
    x.push();
    x.expect(ra, 0, WalkerErrorType::ExpectedTagOnce);
    x.pop_discard();
    assert_eq!(x.get_errors().errors[0].len(), 2);
    x.pop_discard();
    let errs = x.get_errors();
    assert_eq!(errs.errors.len(), 1);
    assert_eq!(errs.errors[0].len(), 1);
    assert_eq!(errs.errors[0][0].loc.row, 0);
    assert!(matches!(errs.errors[0][0].error_type, WalkerErrorType::Unknown));
}
