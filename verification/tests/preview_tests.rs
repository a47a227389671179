use std::collections::BTreeSet;
use std::path::PathBuf;

use empire_porter::io_ops::{
    apply_import, export_bundle_text, format_empire_bundle, format_empire_file,
    normalize_empire_block, selected_designs, ConflictPolicy, ImportReport,
};
use empire_porter::parser::{parse_empire_designs, try_parse_empire_designs, EmpireDesign};
use empire_porter::preview::{
    format_import_report, is_duplicate, selected_preview_snapshot, summary_chips,
};

const CRLF_FILE: &str = "\u{feff}\"Alpha\"={\r\n\tkey=\"alpha_key\"\r\n\tauthority=\"auth_democratic\"\r\n\tspecies={\r\n\t\tclass=\"HUM\"\r\n\t\tportrait=\"human\"\r\n\t}\r\n\tethic=\"ethic_egalitarian\"\r\n\tcivics={\r\n\t\t\"civic_a\"\r\n\t\t\"civic_b\"\r\n\t}\r\n}\r\n\r\n\r\n\"Beta\"={\r\n\tgovernment=\"gov_x\"\r\n}\r\n";

const LF_FILE: &str = "\"Gamma\"={\n\tkey=\"g\"\n\torigin=\"origin_default\"\n}\n\"Delta\"={\n}";

fn parse(text: &str) -> Vec<EmpireDesign> {
    parse_empire_designs(text).expect("text should parse")
}

fn chip_pairs(empire: &EmpireDesign) -> Vec<(String, String)> {
    summary_chips(empire)
        .into_iter()
        .map(|chip| (chip.label.to_string(), chip.value))
        .collect()
}

fn pair(label: &str, value: &str) -> (String, String) {
    (label.to_string(), value.to_string())
}

#[test]
fn preview_of_one_design_is_named_after_it() {
    let empires = parse(CRLF_FILE);
    let selected: BTreeSet<usize> = [1].into_iter().collect();
    let (label, text) = selected_preview_snapshot(&empires, &selected).expect("a preview");
    assert_eq!(label, "Beta");
    assert_eq!(text, "\"Beta\"={\r\n\tgovernment=\"gov_x\"\r\n}\r\n");
}

#[test]
fn preview_of_several_designs_counts_them() {
    let empires = parse(CRLF_FILE);
    let selected: BTreeSet<usize> = [0, 1, 7].into_iter().collect();
    let (label, text) = selected_preview_snapshot(&empires, &selected).expect("a preview");
    assert_eq!(label, "2 selected empire designs");
    let chosen = selected_designs(&empires, &selected);
    assert_eq!(text, format_empire_bundle(&chosen, "\r\n"));
}

#[test]
fn no_preview_without_a_valid_selection() {
    let empires = parse(CRLF_FILE);
    assert!(selected_preview_snapshot(&empires, &BTreeSet::new()).is_none());
    let past_end: BTreeSet<usize> = [5].into_iter().collect();
    assert!(selected_preview_snapshot(&empires, &past_end).is_none());
}

#[test]
fn chips_show_every_summary_field() {
    let empires = parse(CRLF_FILE);
    assert_eq!(
        chip_pairs(&empires[0]),
        vec![
            pair("Authority", "auth_democratic"),
            pair("Government", "unknown"),
            pair("Origin", "unknown"),
            pair("Species", "HUM / human"),
            pair("Ethic", "ethic_egalitarian"),
            pair("Civic", "civic_a"),
            pair("Civic", "civic_b"),
        ]
    );
    assert_eq!(
        chip_pairs(&empires[1]),
        vec![
            pair("Authority", "unknown"),
            pair("Government", "gov_x"),
            pair("Origin", "unknown"),
            pair("Species", "unknown"),
            pair("Ethic", "none found"),
            pair("Civic", "none found"),
        ]
    );
}

#[test]
fn species_chip_uses_what_is_known() {
    let only_class = parse("\"A\"={\n\tspecies={\n\t\tclass=\"MAM\"\n\t}\n}\n");
    assert_eq!(chip_pairs(&only_class[0])[3], pair("Species", "MAM"));
    let only_portrait = parse("\"A\"={\n\tspecies={\n\t\tportrait=\"mam1\"\n\t}\n}\n");
    assert_eq!(chip_pairs(&only_portrait[0])[3], pair("Species", "mam1"));
}

#[test]
fn duplicates_are_found_by_name_or_key() {
    let targets = parse(CRLF_FILE);
    let incoming = parse(LF_FILE);
    assert!(!is_duplicate(&incoming[0], &targets));
    assert!(!is_duplicate(&incoming[1], &targets));
    let same_key = parse("\"Renamed\"={\n\tkey=\"alpha_key\"\n}\n");
    assert!(is_duplicate(&same_key[0], &targets));
    let same_name = parse("\"Beta\"={\n}\n");
    assert!(is_duplicate(&same_name[0], &targets));
    assert!(!is_duplicate(&same_name[0], &[]));
}

#[test]
fn import_report_lines() {
    let mut report = ImportReport {
        imported: 3,
        replaced: 0,
        skipped: 12,
        backup_path: None,
    };
    assert_eq!(
        format_import_report(&report),
        "Import complete: 3 appended, 0 replaced, 12 skipped."
    );
    report.backup_path = Some(PathBuf::from("designs.civshare.1.2.bak"));
    assert_eq!(
        format_import_report(&report),
        "Import complete: 3 appended, 0 replaced, 12 skipped. Backup: designs.civshare.1.2.bak"
    );
}

fn same_designs(written: &[EmpireDesign], read: &[EmpireDesign], newline: &str) {
    assert_eq!(written.len(), read.len());
    for (w, r) in written.iter().zip(read) {
        assert_eq!(w.name, r.name);
        assert_eq!(w.key, r.key);
        assert_eq!(w.summary, r.summary);
        assert_eq!(
            r.raw_text,
            format!("{}{}", normalize_empire_block(&w.raw_text, newline), newline)
        );
    }
}

#[test]
fn written_crlf_file_reads_back() {
    let empires = parse(CRLF_FILE);
    for bom in [false, true] {
        let text = format_empire_file(&empires, "\r\n", bom);
        same_designs(&empires, &parse(&text), "\r\n");
    }
}

#[test]
fn written_lf_file_reads_back() {
    let empires = parse(LF_FILE);
    for bom in [false, true] {
        let text = format_empire_file(&empires, "\n", bom);
        same_designs(&empires, &parse(&text), "\n");
    }
}

#[test]
fn export_of_crlf_designs_reads_back() {
    let empires = parse(CRLF_FILE);
    let selected: BTreeSet<usize> = [0, 1].into_iter().collect();
    let (text, count) = export_bundle_text(&empires, &selected)
        .expect("no broken string")
        .expect("export succeeds");
    assert_eq!(count, 2);
    same_designs(&empires, &parse(&text), "\r\n");
}

#[test]
fn import_between_files_with_the_same_breaks_reads_back() {
    let target_text = "\"Gamma\"={\n\tkey=\"g\"\n}\n";
    let targets = parse(target_text);
    let incoming = parse(LF_FILE);
    let (text, report) = apply_import(target_text, &targets, &incoming, ConflictPolicy::Replace);
    assert_eq!(report.replaced, 1);
    assert_eq!(report.imported, 1);
    let read = parse(&text);
    same_designs(&incoming, &read, "\n");
}

#[test]
fn writing_what_was_read_back_changes_nothing() {
    let empires = parse(CRLF_FILE);
    let once = format_empire_file(&empires, "\r\n", true);
    let twice = format_empire_file(&parse(&once), "\r\n", true);
    assert_eq!(once, twice);
}

#[test]
fn lf_file_written_with_crlf_reads_back() {
    let empires = parse(LF_FILE);
    let text = format_empire_file(&empires, "\r\n", false);
    assert!(!text.replace("\r\n", "").contains('\n'));
    same_designs(&empires, &parse(&text), "\r\n");
    assert_eq!(format_empire_file(&parse(&text), "\r\n", false), text);
}

#[test]
fn crlf_file_written_with_lf_reads_back() {
    let empires = parse(CRLF_FILE);
    let text = format_empire_file(&empires, "\n", true);
    assert!(!text.contains('\r'));
    same_designs(&empires, &parse(&text), "\n");
}

#[test]
fn export_of_lf_designs_reads_back() {
    let empires = parse(LF_FILE);
    let selected: BTreeSet<usize> = [0, 1].into_iter().collect();
    let (text, count) = export_bundle_text(&empires, &selected)
        .expect("no broken string")
        .expect("export succeeds");
    assert_eq!(count, 2);
    same_designs(&empires, &parse(&text), "\r\n");
}

#[test]
fn import_from_lf_into_crlf_reads_back() {
    let targets = parse(CRLF_FILE);
    let incoming = parse(LF_FILE);
    let (text, report) = apply_import(CRLF_FILE, &targets, &incoming, ConflictPolicy::Append);
    assert_eq!(report.imported, 2);
    let read = parse(&text);
    let mut all: Vec<EmpireDesign> = targets.clone();
    all.extend(incoming.iter().cloned());
    same_designs(&all, &read, "\r\n");
}

#[test]
fn lone_carriage_returns_keep_names_and_layout() {
    let text = "\"A\"={\r\tkey=\"k\"\r}\n\"B\"={\n\tauthority=\"x\"\r\tethic=\"e\"\n}\n";
    let empires = parse(text);
    assert_eq!(empires[0].key, None);
    for newline in ["\n", "\r\n"] {
        let written = format_empire_file(&empires, newline, false);
        let read = parse(&written);
        assert_eq!(read.len(), empires.len());
        for (w, r) in empires.iter().zip(&read) {
            assert_eq!(w.name, r.name);
            assert_eq!(
                r.raw_text,
                format!("{}{}", normalize_empire_block(&w.raw_text, newline), newline)
            );
        }
        assert_eq!(read[0].key.as_deref(), Some("k"));
        assert_eq!(format_empire_file(&read, newline, false), written);
    }
}

#[test]
fn lone_carriage_return_can_make_the_written_text_break() {
    let text = "\"A\"={\ncivics={\n\"c1\"\r\"\\\u{e9}\"\n}\n}\n";
    let empires = parse(text);
    assert_eq!(empires[0].summary.civics, vec!["c1".to_string()]);
    let written = format_empire_file(&empires, "\n", false);
    assert!(try_parse_empire_designs(&written).is_none());
}

#[test]
fn fields_come_from_lines_directly_inside_the_block() {
    let text = "\"A\"={\n\tflag={\n\t\tauthority=\"nested\"\n\t\tkey=\"nested_key\"\n\t}\n\tauthority=\"first\"\n\tauthority=\"second\"\n\tethic=\"e1\"\n\tsub={ ethic=\"hidden\" }\n\tethic=\"e2\"\n\tkey=\"k1\"\n\tkey=\"k2\"\n}\n";
    let empires = parse(text);
    assert_eq!(empires[0].summary.authority.as_deref(), Some("first"));
    assert_eq!(empires[0].summary.ethics, vec!["e1".to_string(), "e2".to_string()]);
    assert_eq!(empires[0].key.as_deref(), Some("k1"));
}
