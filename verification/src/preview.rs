//! What the tool shows of designs: the preview of a selection, the summary chips
//! of a design, whether a design is already in the target, and the report of an
//! import.
use vstd::prelude::*;
use vstd::string::*;
use std::collections::BTreeSet;

use crate::io_ops::{
    crlf, crlf_text, format_empire_bundle, formatted, raws_of, selected_designs, selection,
    ImportReport,
};
use crate::parser::{designs_view, has_same_identity, same_identity, DesignView, EmpireDesign};
use crate::summary::{opt_text, texts, SummaryView};
use crate::text::{append_str, decimal, push_decimal, text_bytes};

verus! {

/// The label of a preview that shows several designs.
pub open spec fn many_label(n: nat) -> Seq<char> {
    decimal(n) + " selected empire designs"@
}

/// The preview of the selected designs: a label (the design's name, or how many
/// designs are shown) and the bundle that an export of them would write.
/// `None` when nothing valid is selected.
pub fn selected_preview_snapshot(empires: &[EmpireDesign], selected: &BTreeSet<usize>) -> (r:
    Option<(String, String)>)
    ensures
        ({
            let sel = selection(designs_view(empires@), selected@);
            if selected@.is_empty() || sel.len() == 0 {
                r is None
            } else {
                &&& r matches Some((label, text))
                &&& r matches Some((label, text)) ==> {
                    &&& text_bytes(text) == formatted(raws_of(sel), crlf(), false)
                    &&& sel.len() == 1 ==> text_bytes(label) == sel[0].name
                    &&& sel.len() > 1 ==> label@ == many_label(sel.len())
                }
            }
        }),
{
    if selected.is_empty() {
        return None;
    }
    let chosen = selected_designs(empires, selected);
    if chosen.len() == 0 {
        return None;
    }
    let ghost sel = designs_view(chosen@);
    let label = if chosen.len() == 1 {
        assert(sel[0] == chosen@[0]@);
        chosen[0].name.clone()
    } else {
        let mut s = String::new();
        push_decimal(&mut s, chosen.len() as u64);
        s.append(" selected empire designs");
        s
    };
    let text = format_empire_bundle(&chosen, crlf_text());
    Some((label, text))
}

/// Whether `empire` is the same empire as one of `targets`.
pub fn is_duplicate(empire: &EmpireDesign, targets: &[EmpireDesign]) -> (r: bool)
    ensures
        r == exists|i: int| 0 <= i < targets@.len() && same_identity(#[trigger] targets@[i]@, empire@),
{
    let mut i: usize = 0;
    while i < targets.len()
        invariant
            i <= targets@.len(),
            forall|j: int| 0 <= j < i ==> !same_identity(#[trigger] targets@[j]@, empire@),
        decreases targets@.len() - i,
    {
        if has_same_identity(&targets[i], empire) {
            return true;
        }
        i = i + 1;
    }
    false
}

/// One labelled value shown for a design.
pub struct SummaryChip {
    pub label: &'static str,
    pub value: String,
}

/// A chip as its label and the bytes of its value.
pub open spec fn chip_view(c: SummaryChip) -> (Seq<char>, Seq<u8>) {
    (c.label@, text_bytes(c.value))
}

pub open spec fn or_unknown(o: Option<Seq<u8>>) -> Seq<u8> {
    match o {
        Some(v) => v,
        None => "unknown".spec_bytes(),
    }
}

/// The species shown for a design: class and portrait, whichever are known.
pub open spec fn species_text(class: Option<Seq<u8>>, portrait: Option<Seq<u8>>) -> Seq<u8> {
    match (class, portrait) {
        (Some(c), Some(p)) => c + " / ".spec_bytes() + p,
        (Some(c), None) => c,
        (None, Some(p)) => p,
        (None, None) => "unknown".spec_bytes(),
    }
}

/// One chip per item under `label`, or a single "none found" chip.
pub open spec fn list_chips(label: Seq<char>, items: Seq<Seq<u8>>) -> Seq<(Seq<char>, Seq<u8>)> {
    if items.len() == 0 {
        seq![(label, "none found".spec_bytes())]
    } else {
        items.map_values(|v: Seq<u8>| (label, v))
    }
}

/// The chips of a summary: authority, government, origin and species, then the
/// ethics and the civics.
pub open spec fn chips_of(sum: SummaryView) -> Seq<(Seq<char>, Seq<u8>)> {
    seq![
        ("Authority"@, or_unknown(sum.authority)),
        ("Government"@, or_unknown(sum.government)),
        ("Origin"@, or_unknown(sum.origin)),
        ("Species"@, species_text(sum.species_class, sum.portrait)),
    ] + list_chips("Ethic"@, sum.ethics) + list_chips("Civic"@, sum.civics)
}

fn text_of(s: &str) -> (r: String)
    ensures
        text_bytes(r) == s.spec_bytes(),
{
    let mut r = String::new();
    assert(text_bytes(r) =~= Seq::<u8>::empty());
    append_str(&mut r, s);
    assert(text_bytes(r) =~= s.spec_bytes());
    r
}

fn value_or_unknown(o: &Option<String>) -> (r: String)
    ensures
        text_bytes(r) == or_unknown(opt_text(*o)),
{
    match o {
        Some(v) => v.clone(),
        None => text_of("unknown"),
    }
}

fn push_list_chips(chips: &mut Vec<SummaryChip>, label: &'static str, items: &Vec<String>)
    ensures
        final(chips)@.map_values(|c: SummaryChip| chip_view(c)) == old(chips)@.map_values(
            |c: SummaryChip| chip_view(c),
        ) + list_chips(label@, texts(items@)),
{
    let ghost before = chips@.map_values(|c: SummaryChip| chip_view(c));
    if items.len() == 0 {
        chips.push(SummaryChip { label: label, value: text_of("none found") });
        assert(chips@.map_values(|c: SummaryChip| chip_view(c)) =~= before + list_chips(
            label@,
            texts(items@),
        ));
    } else {
        let mut i: usize = 0;
        while i < items.len()
            invariant
                i <= items@.len(),
                items@.len() > 0,
                chips@.map_values(|c: SummaryChip| chip_view(c)) == before + list_chips(
                    label@,
                    texts(items@),
                ).subrange(0, i as int),
            decreases items@.len() - i,
        {
            let chip = SummaryChip { label: label, value: items[i].clone() };
            assert(chip_view(chip) == list_chips(label@, texts(items@))[i as int]);
            let ghost mid = chips@;
            chips.push(chip);
            assert(chips@ == mid.push(chip));
            assert(chips@.map_values(|c: SummaryChip| chip_view(c)) =~= mid.map_values(
                |c: SummaryChip| chip_view(c),
            ).push(chip_view(chip)));
            assert(list_chips(label@, texts(items@)).subrange(0, i + 1) =~= list_chips(
                label@,
                texts(items@),
            ).subrange(0, i as int).push(list_chips(label@, texts(items@))[i as int]));
            assert(chips@.map_values(|c: SummaryChip| chip_view(c)) =~= before + list_chips(
                label@,
                texts(items@),
            ).subrange(0, i + 1));
            i = i + 1;
        }
        assert(list_chips(label@, texts(items@)).subrange(0, i as int) =~= list_chips(
            label@,
            texts(items@),
        ));
    }
}

/// The chips shown for a design's summary.
pub fn summary_chips(empire: &EmpireDesign) -> (r: Vec<SummaryChip>)
    ensures
        r@.map_values(|c: SummaryChip| chip_view(c)) == chips_of(empire.summary@),
{
    let summary = &empire.summary;
    let mut chips: Vec<SummaryChip> = Vec::new();
    chips.push(SummaryChip { label: "Authority", value: value_or_unknown(&summary.authority) });
    chips.push(SummaryChip { label: "Government", value: value_or_unknown(&summary.government) });
    chips.push(SummaryChip { label: "Origin", value: value_or_unknown(&summary.origin) });
    let species = match (&summary.species_class, &summary.portrait) {
        (Some(class), Some(portrait)) => {
            let mut v = class.clone();
            append_str(&mut v, " / ");
            append_str(&mut v, portrait.as_str());
            v
        },
        (Some(class), None) => class.clone(),
        (None, Some(portrait)) => portrait.clone(),
        (None, None) => text_of("unknown"),
    };
    chips.push(SummaryChip { label: "Species", value: species });
    proof {
        assert(chips@.map_values(|c: SummaryChip| chip_view(c)) =~= seq![
            ("Authority"@, or_unknown(summary@.authority)),
            ("Government"@, or_unknown(summary@.government)),
            ("Origin"@, or_unknown(summary@.origin)),
            ("Species"@, species_text(summary@.species_class, summary@.portrait)),
        ]);
    }
    push_list_chips(&mut chips, "Ethic", &summary.ethics);
    push_list_chips(&mut chips, "Civic", &summary.civics);
    chips
}

/// The status line after an import: how many designs were appended, replaced and
/// skipped.
pub open spec fn report_message(imported: nat, replaced: nat, skipped: nat) -> Seq<char> {
    "Import complete: "@ + decimal(imported) + " appended, "@ + decimal(replaced) + " replaced, "@
        + decimal(skipped) + " skipped."@
}

/// The text of `path` as `Path::display` shows it.
pub uninterp spec fn path_display(path: &std::path::PathBuf) -> Seq<char>;

/// Calls `std::path::Path::display` and writes the result into a `String`; the text
/// is `path_display` of the path, on which alone it depends.
#[verifier::external_body]
fn path_display_text(path: &std::path::PathBuf) -> (r: String)
    ensures
        r@ == path_display(path),
{
    format!("{}", path.display())
}

/// The status line after an import, followed by the backup's path when one was made.
pub fn format_import_report(report: &ImportReport) -> (r: String)
    ensures
        r@ == report_message(report.imported as nat, report.replaced as nat, report.skipped as nat)
            + match report.backup_path {
            Some(p) => " Backup: "@ + path_display(&p),
            None => Seq::<char>::empty(),
        },
{
    let mut out = String::new();
    out.append("Import complete: ");
    push_decimal(&mut out, report.imported as u64);
    out.append(" appended, ");
    push_decimal(&mut out, report.replaced as u64);
    out.append(" replaced, ");
    push_decimal(&mut out, report.skipped as u64);
    out.append(" skipped.");
    let ghost msg = out@;
    assert(msg =~= report_message(
        report.imported as nat,
        report.replaced as nat,
        report.skipped as nat,
    ));
    match &report.backup_path {
        Some(path) => {
            out.append(" Backup: ");
            let text = path_display_text(path);
            out.append(text.as_str());
            assert(out@ =~= msg + (" Backup: "@ + path_display(path)));
        },
        None => {
            assert(out@ =~= msg + Seq::<char>::empty());
        },
    }
    out
}

/// A design's chips: authority, government, origin and species first, each its value
/// or "unknown" (the species its class and portrait, joined by " / " when both are
/// known); then one "Ethic" chip for each ethic, in order, or one "none found" chip
/// when there is none; then the same for the civics.
pub proof fn law_chips_show_every_field(sum: SummaryView)
    ensures
        ({
            let c = chips_of(sum);
            let ne = if sum.ethics.len() == 0 {
                1
            } else {
                sum.ethics.len() as int
            };
            let nc = if sum.civics.len() == 0 {
                1
            } else {
                sum.civics.len() as int
            };
            &&& c.len() == 4 + ne + nc
            &&& c[0] == ("Authority"@, match sum.authority {
                Some(v) => v,
                None => "unknown".spec_bytes(),
            })
            &&& c[1] == ("Government"@, match sum.government {
                Some(v) => v,
                None => "unknown".spec_bytes(),
            })
            &&& c[2] == ("Origin"@, match sum.origin {
                Some(v) => v,
                None => "unknown".spec_bytes(),
            })
            &&& c[3] == ("Species"@, match (sum.species_class, sum.portrait) {
                (Some(cl), Some(po)) => cl + " / ".spec_bytes() + po,
                (Some(cl), None) => cl,
                (None, Some(po)) => po,
                (None, None) => "unknown".spec_bytes(),
            })
            &&& forall|k: int|
                0 <= k < sum.ethics.len() ==> #[trigger] c[4 + k] == ("Ethic"@, sum.ethics[k])
            &&& sum.ethics.len() == 0 ==> c[4] == ("Ethic"@, "none found".spec_bytes())
            &&& forall|k: int|
                0 <= k < sum.civics.len() ==> #[trigger] c[4 + ne + k] == (
                    "Civic"@,
                    sum.civics[k],
                )
            &&& sum.civics.len() == 0 ==> c[4 + ne] == ("Civic"@, "none found".spec_bytes())
        }),
{
    let e = list_chips("Ethic"@, sum.ethics);
    let v = list_chips("Civic"@, sum.civics);
    let c = chips_of(sum);
    let ne = if sum.ethics.len() == 0 {
        1
    } else {
        sum.ethics.len() as int
    };
    assert(e.len() == ne);
    assert(v.len() == (if sum.civics.len() == 0 {
        1
    } else {
        sum.civics.len() as int
    }));
    assert forall|k: int| 0 <= k < sum.ethics.len() implies #[trigger] c[4 + k] == (
        "Ethic"@,
        sum.ethics[k],
    ) by {
        assert(c[4 + k] == e[k]);
    }
    assert forall|k: int| 0 <= k < sum.civics.len() implies #[trigger] c[4 + ne + k] == (
        "Civic"@,
        sum.civics[k],
    ) by {
        assert(c[4 + ne + k] == v[k]);
    }
    if sum.ethics.len() == 0 {
        assert(c[4] == e[0]);
    }
    if sum.civics.len() == 0 {
        assert(c[4 + ne] == v[0]);
    }
}

} // verus!
