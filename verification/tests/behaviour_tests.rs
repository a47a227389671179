use std::collections::BTreeSet;
use std::path::Path;

use empire_porter::io_ops::{
    apply_import, backup_path_for, detect_newline, export_bundle_text, format_empire_bundle,
    format_empire_file, normalize_empire_block, normalize_line_endings, plan_import,
    selected_designs, suffixed_file_name, temp_path_for, ConflictPolicy, FileError, ImportPlan,
};
use empire_porter::scan::{apply_brace_delta, parse_quoted, QuoteScan};
use empire_porter::parser::{
    has_same_identity, parse_empire_designs, try_parse_empire_designs, validate_single_empire,
    EmpireDesign, ParseError,
};

const TWO: &str = "\"Alpha\"={\n\tkey=\"alpha_key\"\n\tauthority=\"auth_democratic\"\n}\n\"Beta\"={\n\tkey=\"beta_key\"\n\tauthority=\"auth_imperial\"\n}\n";

fn parse(text: &str) -> Vec<EmpireDesign> {
    parse_empire_designs(text).expect("text should parse")
}

fn design(name: &str, key: Option<&str>, body: &str) -> EmpireDesign {
    let text = match key {
        Some(k) => format!("\"{name}\"={{\n\tkey=\"{k}\"\n{body}}}\n"),
        None => format!("\"{name}\"={{\n{body}}}\n"),
    };
    parse(&text).remove(0)
}

#[test]
fn error_for_text_without_a_quote() {
    match parse_empire_designs("x") {
        Err(ParseError::ExpectedEmpireName(0)) => {}
        other => panic!("unexpected {other:?}"),
    }
    assert_eq!(
        validate_single_empire("  x").unwrap_err(),
        "expected top-level empire name at byte 2"
    );
}

#[test]
fn error_for_unterminated_name() {
    match parse_empire_designs("\n\"abc") {
        Err(ParseError::UnterminatedString(1)) => {}
        other => panic!("unexpected {other:?}"),
    }
    assert_eq!(
        validate_single_empire("\"abc").unwrap_err(),
        "unterminated quoted string starting at byte 0"
    );
}

#[test]
fn error_for_missing_equals() {
    match parse_empire_designs("\"abc\" x") {
        Err(ParseError::ExpectedEquals { name, byte }) => {
            assert_eq!(name, "abc");
            assert_eq!(byte, 6);
        }
        other => panic!("unexpected {other:?}"),
    }
    assert_eq!(
        validate_single_empire("\"abc\" x").unwrap_err(),
        "expected '=' after empire name 'abc' at byte 6"
    );
}

#[test]
fn error_for_missing_open_brace() {
    match parse_empire_designs("\"abc\" = x") {
        Err(ParseError::ExpectedOpenBrace { name, byte }) => {
            assert_eq!(name, "abc");
            assert_eq!(byte, 8);
        }
        other => panic!("unexpected {other:?}"),
    }
    assert_eq!(
        validate_single_empire("\"abc\" = ").unwrap_err(),
        "expected '{' after empire name 'abc' at byte 8"
    );
}

#[test]
fn error_for_unterminated_block() {
    match parse_empire_designs("\"a\"={}\n\"abc\" = { x=\"}\" ") {
        Err(ParseError::UnterminatedBlock { name, byte }) => {
            assert_eq!(name, "abc");
            assert_eq!(byte, 7);
        }
        other => panic!("unexpected {other:?}"),
    }
    assert_eq!(
        validate_single_empire("\"abc\"={ {}").unwrap_err(),
        "unterminated empire block 'abc' starting at byte 0"
    );
}

#[test]
fn empty_and_blank_files_hold_no_designs() {
    assert!(parse("").is_empty());
    assert!(parse(" \r\n\t\n").is_empty());
    assert!(parse("\u{feff}\n").is_empty());
    assert_eq!(
        validate_single_empire("").unwrap_err(),
        "No empire design blocks were found."
    );
    assert_eq!(
        validate_single_empire(TWO).unwrap_err(),
        "Expected exactly one empire design block, but found multiple."
    );
}

#[test]
fn byte_order_mark_is_skipped() {
    let text = "\u{feff}\"A\"={\n}\n";
    let empires = parse(text);
    assert_eq!(empires.len(), 1);
    assert_eq!(empires[0].name, "A");
    assert_eq!(empires[0].start_byte, 3);
    assert_eq!(empires[0].end_byte, text.len());
}

#[test]
fn designs_are_exact_slices_of_the_text() {
    let text = "  \"A\" =\r\n {\r\n x = \"}\" \r\n}\r\n\r\n\"B\"={}";
    let empires = parse(text);
    assert_eq!(empires.len(), 2);
    for e in &empires {
        assert_eq!(e.raw_text, &text[e.start_byte..e.end_byte]);
        assert!(e.start_byte < e.end_byte);
    }
    assert_eq!(empires[0].start_byte, 2);
    assert!(empires[0].raw_text.ends_with("}\r\n"));
    assert!(empires[0].end_byte <= empires[1].start_byte);
    assert_eq!(empires[1].raw_text, "\"B\"={}");
}

#[test]
fn only_one_line_break_belongs_to_a_block() {
    let empires = parse("\"A\"={}\n\n\"B\"={}\r\n");
    assert_eq!(empires[0].raw_text, "\"A\"={}\n");
    assert_eq!(empires[1].raw_text, "\"B\"={}\r\n");
}

#[test]
fn escapes_in_names_are_resolved() {
    let empires = parse("\"A\\\"B\\\\C\"={ name=\"{\" }");
    assert_eq!(empires[0].name, "A\"B\\C");
    assert_eq!(empires.len(), 1);
}

#[test]
fn non_ascii_names_are_kept() {
    let empires = parse("\"Ätherische Ründe ✦\"={\n\tkey=\"ä\"\n}\n");
    assert_eq!(empires[0].name, "Ätherische Ründe ✦");
    assert_eq!(empires[0].key.as_deref(), Some("ä"));
}

#[test]
fn escaped_multibyte_character_cannot_be_read() {
    assert!(try_parse_empire_designs("\"a\\é\"={}").is_none());
    // With nothing after it to cut, the escape only leaves the name unterminated.
    match try_parse_empire_designs("\"a\\é") {
        Some(Err(ParseError::UnterminatedString(0))) => {}
        other => panic!("unexpected {other:?}"),
    }
}

#[test]
fn summary_reads_top_level_fields_and_sections() {
    let text = "\"S\"={\n\tkey=\"skey\"\n\tspecies={\n\t\tclass=\"HUM\"\n\t\tportrait=\"human\"\n\t\tinner={ class=\"NOPE\" }\n\t}\n\tauthority = \"auth_a\"\n\tauthority=\"auth_b\"\n\tgovernment=\"gov_x\"\n\t\u{3000}origin=\"origin_y\"\n\tethic=\"ethic_1\"\n\tethic=\"ethic_2\"\n\tethics=\"not_an_ethic\"\n\tflag={\n\t\tkey=\"inner_key\"\n\t\tcolors={ \"red\" }\n\t}\n\tcivics={\n\t\t\"civic_1\"\n\t\t\"civic_2\" \"civic_3\"\n\t\tdeep={ \"civic_hidden\" }\n\t}\n}\n";
    let e = &parse(text)[0];
    assert_eq!(e.key.as_deref(), Some("skey"));
    assert_eq!(e.summary.species_class.as_deref(), Some("HUM"));
    assert_eq!(e.summary.portrait.as_deref(), Some("human"));
    assert_eq!(e.summary.authority.as_deref(), Some("auth_a"));
    assert_eq!(e.summary.government.as_deref(), Some("gov_x"));
    assert_eq!(e.summary.origin.as_deref(), Some("origin_y"));
    assert_eq!(e.summary.ethics, vec!["ethic_1".to_string(), "ethic_2".to_string()]);
    // A line directly inside the civics block gives its first quoted string, even when
    // that string stands in a nested block opened on the same line.
    assert_eq!(
        e.summary.civics,
        vec!["civic_1".to_string(), "civic_2".to_string(), "civic_hidden".to_string()]
    );
}

#[test]
fn design_without_key_or_summary_fields() {
    let e = &parse("\"Bare\"={ authority=\"auth_x\" }")[0];
    assert_eq!(e.key, None);
    assert_eq!(e.summary.authority, None);
    assert!(e.summary.civics.is_empty());
}

#[test]
fn identity_is_name_or_key() {
    let a = design("Same", Some("k1"), "");
    let b = design("Same", Some("k2"), "");
    let c = design("Other", Some("k1"), "");
    let d = design("Third", None, "");
    let e = design("Fourth", None, "");
    assert!(has_same_identity(&a, &b));
    assert!(has_same_identity(&a, &c));
    assert!(has_same_identity(&c, &a));
    assert!(!has_same_identity(&b, &c));
    assert!(!has_same_identity(&d, &e));
    assert!(has_same_identity(&d, &d));
}

#[test]
fn policy_labels() {
    assert_eq!(ConflictPolicy::Skip.label(), "Skip duplicates");
    assert_eq!(ConflictPolicy::Replace.label(), "Replace duplicates");
    assert_eq!(ConflictPolicy::Append.label(), "Append anyway");
    assert_eq!(ConflictPolicy::default(), ConflictPolicy::Skip);
}

#[test]
fn newline_detection() {
    assert_eq!(detect_newline("a\r\nb"), "\r\n");
    assert_eq!(detect_newline("a\nb\r"), "\n");
    assert_eq!(detect_newline(""), "\n");
    assert_eq!(detect_newline("\r\r\n"), "\r\n");
}

#[test]
fn line_endings_are_normalized() {
    assert_eq!(normalize_line_endings("a\r\nb\rc\nd\r\r\n"), "a\nb\nc\nd\n\n");
    assert_eq!(normalize_empire_block(" \u{a0}x\r\ny\rz \n\n", "\r\n"), "x\r\ny\r\nz");
    assert_eq!(normalize_empire_block("\t\n", "\n"), "");
}

#[test]
fn formatted_file_layout() {
    let empires = parse(TWO);
    let with_bom = format_empire_file(&empires, "\n", true);
    assert!(with_bom.starts_with('\u{feff}'));
    assert_eq!(
        with_bom,
        "\u{feff}\"Alpha\"={\n\tkey=\"alpha_key\"\n\tauthority=\"auth_democratic\"\n}\n\n\"Beta\"={\n\tkey=\"beta_key\"\n\tauthority=\"auth_imperial\"\n}\n"
    );
    let bundle = format_empire_bundle(&empires, "\r\n");
    assert!(!bundle.replace("\r\n", "").contains('\n'));
    assert!(!bundle.replace("\r\n", "").contains('\r'));
    assert!(bundle.ends_with("}\r\n"));
    assert_eq!(format_empire_bundle(&[], "\r\n"), "");
    assert_eq!(parse(&bundle).len(), 2);
}

#[test]
fn import_keeps_target_line_breaks_and_bom() {
    let target_text = format!("\u{feff}{}", TWO.replace('\n', "\r\n"));
    let target = parse(&target_text);
    let incoming = vec![design("Gamma", Some("gamma_key"), "")];
    let (output, report) = apply_import(&target_text, &target, &incoming, ConflictPolicy::Skip);
    assert_eq!(report.imported, 1);
    assert!(report.backup_path.is_none());
    assert!(output.starts_with('\u{feff}'));
    assert!(!output.replace("\r\n", "").contains('\n'));
    let names: Vec<String> = parse(&output).into_iter().map(|e| e.name).collect();
    assert_eq!(names, vec!["Alpha", "Beta", "Gamma"]);
}

#[test]
fn import_accounts_for_every_incoming_design() {
    let target = parse(TWO);
    let incoming = vec![
        design("Alpha", None, "\tauthority=\"auth_new\"\n"),
        design("Renamed", Some("beta_key"), ""),
        design("Alpha", None, ""),
        design("Fresh", None, ""),
    ];
    for policy in [ConflictPolicy::Skip, ConflictPolicy::Replace, ConflictPolicy::Append] {
        let (output, report) = apply_import(TWO, &target, &incoming, policy);
        assert_eq!(report.imported + report.replaced + report.skipped, incoming.len());
        assert_eq!(parse(&output).len(), target.len() + report.imported);
    }
    let (output, report) = apply_import(TWO, &target, &incoming, ConflictPolicy::Replace);
    assert_eq!((report.imported, report.replaced, report.skipped), (1, 2, 1));
    let names: Vec<String> = parse(&output).into_iter().map(|e| e.name).collect();
    assert_eq!(names, vec!["Alpha", "Renamed", "Fresh"]);
    assert!(output.contains("auth_new"));
    let (_, report) = apply_import(TWO, &target, &incoming, ConflictPolicy::Skip);
    assert_eq!((report.imported, report.replaced, report.skipped), (1, 0, 3));
    let (output, report) = apply_import(TWO, &target, &incoming, ConflictPolicy::Append);
    assert_eq!((report.imported, report.replaced, report.skipped), (4, 0, 0));
    assert_eq!(parse(&output).len(), 6);
}

#[test]
fn selection_follows_file_order() {
    let empires = parse(TWO);
    let selected: BTreeSet<usize> = [5, 1, 0].into_iter().collect();
    let chosen = selected_designs(&empires, &selected);
    let names: Vec<&str> = chosen.iter().map(|e| e.name.as_str()).collect();
    assert_eq!(names, vec!["Alpha", "Beta"]);
}

#[test]
fn export_bundle_checks_the_selection() {
    let empires = parse(TWO);
    assert!(matches!(
        export_bundle_text(&empires, &BTreeSet::new()),
        Some(Err(FileError::NoSelection))
    ));
    let out_of_range: BTreeSet<usize> = [7].into_iter().collect();
    assert!(matches!(
        export_bundle_text(&empires, &out_of_range),
        Some(Err(FileError::NoSelection))
    ));
    let second: BTreeSet<usize> = [1].into_iter().collect();
    match export_bundle_text(&empires, &second) {
        Some(Ok((text, count))) => {
            assert_eq!(count, 1);
            assert_eq!(
                text,
                "\"Beta\"={\r\n\tkey=\"beta_key\"\r\n\tauthority=\"auth_imperial\"\r\n}\r\n"
            );
        }
        _ => panic!("export should succeed"),
    }
}

#[test]
fn import_plan_leaves_unchanged_files_alone() {
    let target = parse(TWO);
    let source = parse(TWO);
    let all: BTreeSet<usize> = [0, 1].into_iter().collect();
    match plan_import(TWO, &target, &source, &all, ConflictPolicy::Skip) {
        Ok(ImportPlan::Unchanged(report)) => assert_eq!(report.skipped, 2),
        _ => panic!("nothing should change"),
    }
    match plan_import(TWO, &target, &source, &all, ConflictPolicy::Append) {
        Ok(ImportPlan::Rewrite(text, report)) => {
            assert_eq!(report.imported, 2);
            assert_eq!(parse(&text).len(), 4);
        }
        _ => panic!("the file should be rewritten"),
    }
    assert!(matches!(
        plan_import(TWO, &target, &source, &BTreeSet::new(), ConflictPolicy::Append),
        Err(FileError::NoSelection)
    ));
}

#[test]
fn backup_and_temporary_names() {
    assert_eq!(
        suffixed_file_name("designs.txt", "civshare", 1700000000, 4242, "bak"),
        "designs.txt.civshare.1700000000.4242.bak"
    );
    assert_eq!(suffixed_file_name("x", "l", 0, 0, "e"), "x.l.0.0.e");
    let backup = backup_path_for(Path::new("/data/user_designs.txt"), 12, 34).unwrap();
    assert_eq!(backup, Path::new("/data/user_designs.txt.civshare.12.34.bak"));
    let temp = temp_path_for(Path::new("dir/f.txt"), 5, 6).unwrap();
    assert_eq!(temp, Path::new("dir/f.txt.civshare.5.6.tmp"));
    assert!(matches!(backup_path_for(Path::new("/"), 1, 1), Err(FileError::MissingFileName)));
}

#[test]
fn backup_path_beside_the_target() {
    let backup = backup_path_for(Path::new("saves/designs.txt"), 1700000000, 42).unwrap();
    assert_eq!(backup, Path::new("saves/designs.txt.civshare.1700000000.42.bak"));
    let temp = temp_path_for(Path::new("saves/designs.txt"), 1700000000, 42).unwrap();
    assert_eq!(temp, Path::new("saves/designs.txt.civshare.1700000000.42.tmp"));
    assert!(matches!(temp_path_for(Path::new(""), 1, 1), Err(FileError::MissingFileName)));
}

#[test]
fn brace_depth_of_a_line() {
    let cases: [(&str, usize, usize); 3] =
        [("a={ b=\"{\" }}", 1, 0), ("}}}", 1, 0), ("x={ \"}", 2, 3)];
    for (line, depth, expected) in cases {
        let b = line.as_bytes();
        assert_eq!(apply_brace_delta(b, 0, b.len(), depth), expected, "{line}");
    }
}

#[test]
fn quoted_text_starts_after_the_opening_byte() {
    let text = "x=abc\" tail";
    match parse_quoted(text, text.as_bytes(), 1, text.len()) {
        QuoteScan::Closed(value, after) => {
            assert_eq!(value, "abc");
            assert_eq!(after, 6);
        }
        _ => panic!("the string closes"),
    }
    assert!(matches!(
        parse_quoted(text, text.as_bytes(), 6, text.len()),
        QuoteScan::Unterminated
    ));
}
