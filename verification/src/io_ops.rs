//! Export bundles and imports into an existing design file: selecting designs,
//! resolving duplicates and writing the blocks back in a clean layout.
use vstd::prelude::*;
use vstd::string::*;
use vstd::utf8::*;

use crate::parser::{
    designs_view, has_same_identity, parse_designs, same_identity, try_parse_empire_designs,
    DesignView, EmpireDesign, ParseError, Parsed,
};
use std::collections::BTreeSet;
use crate::scan::{CR, LF};
use crate::text::{
    append_str, decimal, lemma_boundary_near_ascii, push_decimal, lemma_str_valid, lemma_trim_end_boundary, lemma_trim_start_boundary, lemma_trim_start_range, str_slice, text_bytes,
    trim_bounds, trim_range,
};

verus! {

broadcast use vstd::laws_cmp::group_laws_cmp, vstd::std_specs::btree::group_btree_axioms;

/// `std::path::PathBuf`, carried through as an opaque value: nothing is assumed of
/// its contents.
#[verifier::external_type_specification]
#[verifier::external_body]
pub struct ExPathBuf(std::path::PathBuf);

/// `std::path::Path`, carried through as an opaque value: nothing is assumed of its
/// contents.
#[verifier::external_type_specification]
#[verifier::external_body]
pub struct ExPath(std::path::Path);

/// `std::io::Error`, carried through as an opaque value inside `FileError`.
#[verifier::external_type_specification]
#[verifier::external_body]
pub struct ExIoError(std::io::Error);

/// What an import does with an incoming design that matches one already in the file.
#[derive(Clone, Copy, Debug, Default, PartialEq, Eq)]
pub enum ConflictPolicy {
    #[default]
    Skip,
    Replace,
    Append,
}

impl ConflictPolicy {
    /// The label shown for the policy.
    pub fn label(self) -> (r: &'static str)
        ensures
            r@ == match self {
                ConflictPolicy::Skip => "Skip duplicates"@,
                ConflictPolicy::Replace => "Replace duplicates"@,
                ConflictPolicy::Append => "Append anyway"@,
            },
    {
        match self {
            ConflictPolicy::Skip => "Skip duplicates",
            ConflictPolicy::Replace => "Replace duplicates",
            ConflictPolicy::Append => "Append anyway",
        }
    }
}

/// What an import did.
#[derive(Debug, Default)]
pub struct ImportReport {
    pub imported: usize,
    pub replaced: usize,
    pub skipped: usize,
    pub backup_path: Option<std::path::PathBuf>,
}

/// Why reading, exporting or importing failed.
#[derive(Debug)]
pub enum FileError {
    Read { path: std::path::PathBuf, source: std::io::Error },
    Write { path: std::path::PathBuf, source: std::io::Error },
    Copy { from: std::path::PathBuf, to: std::path::PathBuf, source: std::io::Error },
    RemoveTemp { path: std::path::PathBuf, source: std::io::Error },
    Parse(ParseError),
    NoSelection,
    MissingFileName,
}

pub open spec fn crlf() -> Seq<u8> {
    seq![CR, LF]
}

pub open spec fn lf() -> Seq<u8> {
    seq![LF]
}

/// The UTF-8 byte order mark, U+FEFF.
pub open spec fn bom() -> Seq<u8> {
    seq![0xEFu8, 0xBBu8, 0xBFu8]
}

pub open spec fn crlf_at(s: Seq<u8>, i: int) -> bool {
    0 <= i && i + 1 < s.len() && s[i] == CR && s[i + 1] == LF
}

pub open spec fn contains_crlf(s: Seq<u8>) -> bool {
    exists|i: int| #[trigger] crlf_at(s, i)
}

pub open spec fn starts_with_bom(s: Seq<u8>) -> bool {
    s.len() >= 3 && s.subrange(0, 3) == bom()
}

/// The line break a text uses: CRLF if it holds one anywhere, LF otherwise.
pub open spec fn newline_of(s: Seq<u8>) -> Seq<u8> {
    if contains_crlf(s) {
        crlf()
    } else {
        lf()
    }
}

/// An ASCII character is encoded as its own code.
pub proof fn lemma_encode_ascii_char(c: char)
    requires
        (c as u32) < 0x80,
    ensures
        encode_scalar(c as u32) == seq![c as u8],
{
    let x = c as u32;
    assert(x < 0x80 ==> (x & 0x7F) as u8 == x as u8) by (bit_vector);
    assert(encode_scalar(x) =~= seq![c as u8]);
}

pub(crate) fn crlf_text() -> (r: &'static str)
    ensures
        r.spec_bytes() == crlf(),
{
    proof {
        reveal_strlit("\r\n");
        lemma_encode_ascii_char('\r');
        lemma_encode_ascii_char('\n');
        reveal_with_fuel(encode_utf8, 3);
        assert("\r\n"@.drop_first() =~= seq!['\n']);
        assert(seq!['\n'].drop_first() =~= Seq::<char>::empty());
        assert("\r\n".spec_bytes() =~= crlf());
    }
    "\r\n"
}

fn lf_text() -> (r: &'static str)
    ensures
        r.spec_bytes() == lf(),
{
    proof {
        reveal_strlit("\n");
        lemma_encode_ascii_char('\n');
        reveal_with_fuel(encode_utf8, 2);
        assert(seq!['\n'].drop_first() =~= Seq::<char>::empty());
        assert("\n".spec_bytes() =~= lf());
    }
    "\n"
}

/// The line break of `text`: CRLF if it holds one, LF otherwise.
pub fn detect_newline(text: &str) -> (r: &'static str)
    ensures
        r.spec_bytes() == newline_of(text.spec_bytes()),
{
    let b = text.as_bytes();
    let mut i: usize = 0;
    while b.len() >= 2 && i < b.len() - 1
        invariant
            b@ == text.spec_bytes(),
            i <= b@.len(),
            forall|j: int| 0 <= j < i ==> !#[trigger] crlf_at(b@, j),
        decreases b@.len() - i,
    {
        if b[i] == CR && b[i + 1] == LF {
            assert(crlf_at(b@, i as int));
            return crlf_text();
        }
        i = i + 1;
    }
    assert(!contains_crlf(b@));
    lf_text()
}

fn bom_text() -> (r: &'static str)
    ensures
        r.spec_bytes() == bom(),
{
    proof {
        reveal_strlit("\u{feff}");
        assert(leading_byte_width_3(0xFEFFu32) == 0xEF) by (bit_vector);
        assert(second_last_continuation_byte(0xFEFFu32) == 0xBB) by (bit_vector);
        assert(last_continuation_byte(0xFEFFu32) == 0xBF) by (bit_vector);
        reveal_with_fuel(encode_utf8, 2);
        assert("\u{feff}"@.drop_first() =~= Seq::<char>::empty());
        assert("\u{feff}".spec_bytes() =~= bom());
    }
    "\u{feff}"
}


/// `t[i..]` with every CRLF and every lone CR turned into LF.
pub open spec fn lf_from(t: Seq<u8>, i: int) -> Seq<u8>
    decreases t.len() - i,
{
    if !(0 <= i < t.len()) {
        Seq::empty()
    } else if t[i] == CR && i + 1 < t.len() && t[i + 1] == LF {
        seq![LF] + lf_from(t, i + 2)
    } else if t[i] == CR {
        seq![LF] + lf_from(t, i + 1)
    } else {
        seq![t[i]] + lf_from(t, i + 1)
    }
}

/// `t[i..]` with every LF replaced by `nl`.
pub open spec fn nl_from(t: Seq<u8>, i: int, nl: Seq<u8>) -> Seq<u8>
    decreases t.len() - i,
{
    if !(0 <= i < t.len()) {
        Seq::empty()
    } else if t[i] == LF {
        nl + nl_from(t, i + 1, nl)
    } else {
        seq![t[i]] + nl_from(t, i + 1, nl)
    }
}

/// A design's text as it is written out: trimmed, every line break made `nl`.
pub open spec fn normalized_block(t: Seq<u8>, nl: Seq<u8>) -> Seq<u8> {
    let (lo, hi) = trim_bounds(t, 0, t.len() as int);
    nl_from(lf_from(t.subrange(lo, hi), 0), 0, nl)
}

/// The blocks of a file: each normalized block followed by `nl`, with one more `nl`
/// (a blank line) between consecutive blocks.
pub open spec fn blocks(raws: Seq<Seq<u8>>, nl: Seq<u8>) -> Seq<u8>
    decreases raws.len(),
{
    if raws.len() == 0 {
        Seq::empty()
    } else {
        let prev = raws.drop_last();
        blocks(prev, nl) + (if prev.len() > 0 {
            nl
        } else {
            Seq::empty()
        }) + normalized_block(raws.last(), nl) + nl
    }
}

/// A whole file: an optional byte order mark, then the blocks.
pub open spec fn formatted(raws: Seq<Seq<u8>>, nl: Seq<u8>, with_bom: bool) -> Seq<u8> {
    (if with_bom {
        bom()
    } else {
        Seq::empty()
    }) + blocks(raws, nl)
}

pub open spec fn raws_of(ds: Seq<DesignView>) -> Seq<Seq<u8>> {
    ds.map_values(|d: DesignView| d.raw)
}

proof fn lemma_empty_text(out: String)
    requires
        out@ == Seq::<char>::empty(),
    ensures
        text_bytes(out) == Seq::<u8>::empty(),
{
    assert(text_bytes(out) =~= Seq::<u8>::empty());
}

/// `text` with CRLF and lone CR turned into LF.
pub fn normalize_line_endings(text: &str) -> (r: String)
    ensures
        text_bytes(r) == lf_from(text.spec_bytes(), 0),
{
    let b = text.as_bytes();
    let ghost t = b@;
    proof {
        lemma_str_valid(text);
    }
    let mut out = String::new();
    proof {
        lemma_empty_text(out);
        assert(Seq::<u8>::empty() + t.subrange(0, 0) + lf_from(t, 0) =~= lf_from(t, 0));
    }
    let mut chunk: usize = 0;
    let mut pos: usize = 0;
    while pos < b.len()
        invariant
            b@ == t,
            t == text.spec_bytes(),
            valid_utf8(t),
            chunk <= pos <= t.len(),
            chunk == 0 || t[chunk - 1] < 0x80,
            lf_from(t, 0) == text_bytes(out) + t.subrange(chunk as int, pos as int) + lf_from(
                t,
                pos as int,
            ),
        decreases t.len() - pos,
    {
        if b[pos] == CR {
            proof {
                lemma_boundary_near_ascii(t, chunk as int);
                lemma_boundary_near_ascii(t, pos as int);
            }
            let ghost before = text_bytes(out);
            let piece = str_slice(text, chunk, pos);
            append_str(&mut out, piece);
            append_str(&mut out, lf_text());
            let step: usize = if pos + 1 < b.len() && b[pos + 1] == LF {
                2
            } else {
                1
            };
            proof {
                assert(text_bytes(out) =~= before + t.subrange(chunk as int, pos as int) + seq![LF]);
                assert(t.subrange(pos + step, pos + step) =~= Seq::<u8>::empty());
                assert(lf_from(t, pos as int) == seq![LF] + lf_from(t, pos + step));
                assert(lf_from(t, 0) =~= text_bytes(out) + t.subrange(pos + step, pos + step)
                    + lf_from(t, pos + step));
            }
            pos = pos + step;
            chunk = pos;
        } else {
            proof {
                assert(lf_from(t, pos as int) == seq![t[pos as int]] + lf_from(t, pos + 1));
                assert(t.subrange(chunk as int, pos as int) + seq![t[pos as int]] =~= t.subrange(
                    chunk as int,
                    pos + 1,
                ));
                assert(lf_from(t, 0) =~= text_bytes(out) + t.subrange(chunk as int, pos + 1)
                    + lf_from(t, pos + 1));
            }
            pos = pos + 1;
        }
    }
    proof {
        lemma_boundary_near_ascii(t, chunk as int);
        lemma_boundary_near_ascii(t, pos as int);
    }
    let piece = str_slice(text, chunk, pos);
    append_str(&mut out, piece);
    proof {
        assert(lf_from(t, pos as int) =~= Seq::<u8>::empty());
        assert(text_bytes(out) =~= lf_from(t, 0));
    }
    out
}

/// `text` with every LF replaced by `newline`.
pub fn replace_newlines(text: &str, newline: &str) -> (r: String)
    ensures
        text_bytes(r) == nl_from(text.spec_bytes(), 0, newline.spec_bytes()),
{
    let b = text.as_bytes();
    let ghost t = b@;
    let ghost nl = newline.spec_bytes();
    proof {
        lemma_str_valid(text);
    }
    let mut out = String::new();
    proof {
        lemma_empty_text(out);
        assert(Seq::<u8>::empty() + t.subrange(0, 0) + nl_from(t, 0, nl) =~= nl_from(t, 0, nl));
    }
    let mut chunk: usize = 0;
    let mut pos: usize = 0;
    while pos < b.len()
        invariant
            b@ == t,
            t == text.spec_bytes(),
            nl == newline.spec_bytes(),
            valid_utf8(t),
            chunk <= pos <= t.len(),
            chunk == 0 || t[chunk - 1] < 0x80,
            nl_from(t, 0, nl) == text_bytes(out) + t.subrange(chunk as int, pos as int) + nl_from(
                t,
                pos as int,
                nl,
            ),
        decreases t.len() - pos,
    {
        if b[pos] == LF {
            proof {
                lemma_boundary_near_ascii(t, chunk as int);
                lemma_boundary_near_ascii(t, pos as int);
            }
            let ghost before = text_bytes(out);
            let piece = str_slice(text, chunk, pos);
            append_str(&mut out, piece);
            append_str(&mut out, newline);
            proof {
                assert(t.subrange(pos + 1, pos + 1) =~= Seq::<u8>::empty());
                assert(nl_from(t, pos as int, nl) == nl + nl_from(t, pos + 1, nl));
                assert(nl_from(t, 0, nl) =~= text_bytes(out) + t.subrange(pos + 1, pos + 1)
                    + nl_from(t, pos + 1, nl));
            }
            pos = pos + 1;
            chunk = pos;
        } else {
            proof {
                assert(nl_from(t, pos as int, nl) == seq![t[pos as int]] + nl_from(t, pos + 1, nl));
                assert(t.subrange(chunk as int, pos as int) + seq![t[pos as int]] =~= t.subrange(
                    chunk as int,
                    pos + 1,
                ));
                assert(nl_from(t, 0, nl) =~= text_bytes(out) + t.subrange(chunk as int, pos + 1)
                    + nl_from(t, pos + 1, nl));
            }
            pos = pos + 1;
        }
    }
    proof {
        lemma_boundary_near_ascii(t, chunk as int);
        lemma_boundary_near_ascii(t, pos as int);
    }
    let piece = str_slice(text, chunk, pos);
    append_str(&mut out, piece);
    proof {
        assert(nl_from(t, pos as int, nl) =~= Seq::<u8>::empty());
        assert(text_bytes(out) =~= nl_from(t, 0, nl));
    }
    out
}

/// A design's text as written out: trimmed, with every line break made `newline`.
pub fn normalize_empire_block(text: &str, newline: &str) -> (r: String)
    ensures
        text_bytes(r) == normalized_block(text.spec_bytes(), newline.spec_bytes()),
{
    let b = text.as_bytes();
    let (lo, hi) = trim_range(b, 0, b.len());
    proof {
        lemma_str_valid(text);
        lemma_boundary_near_ascii(b@, 0);
        lemma_trim_start_boundary(b@, 0, b@.len() as int);
        lemma_trim_start_range(b@, 0, b@.len() as int);
        lemma_boundary_near_ascii(b@, b@.len() as int);
        lemma_trim_end_boundary(b@, lo as int, b@.len() as int);
    }
    let trimmed = str_slice(text, lo, hi);
    let lines = normalize_line_endings(trimmed);
    replace_newlines(lines.as_str(), newline)
}


/// The file made of `empires`' blocks, with line breaks `newline` and, if asked,
/// a byte order mark first.
pub fn format_empire_file(empires: &[EmpireDesign], newline: &str, include_bom: bool) -> (r: String)
    ensures
        text_bytes(r) == formatted(
            raws_of(designs_view(empires@)),
            newline.spec_bytes(),
            include_bom,
        ),
{
    let ghost raws = raws_of(designs_view(empires@));
    let ghost nl = newline.spec_bytes();
    let ghost head = if include_bom {
        bom()
    } else {
        Seq::<u8>::empty()
    };
    let mut output = String::new();
    proof {
        lemma_empty_text(output);
    }
    if include_bom {
        append_str(&mut output, bom_text());
    }
    proof {
        assert(raws.take(0) =~= Seq::<Seq<u8>>::empty());
        assert(text_bytes(output) =~= head + blocks(raws.take(0), nl));
    }
    let mut index: usize = 0;
    while index < empires.len()
        invariant
            index <= empires@.len(),
            raws == raws_of(designs_view(empires@)),
            raws.len() == empires@.len(),
            nl == newline.spec_bytes(),
            text_bytes(output) == head + blocks(raws.take(index as int), nl),
        decreases empires@.len() - index,
    {
        let ghost before = text_bytes(output);
        if index > 0 {
            append_str(&mut output, newline);
        }
        let block = normalize_empire_block(empires[index].raw_text.as_str(), newline);
        append_str(&mut output, block.as_str());
        append_str(&mut output, newline);
        proof {
            let next = raws.take(index + 1);
            assert(next.drop_last() =~= raws.take(index as int));
            assert(next.last() == raws[index as int]);
            assert(raws[index as int] == text_bytes(empires@[index as int].raw_text));
            assert(text_bytes(output) =~= head + blocks(next, nl));
        }
        index = index + 1;
    }
    proof {
        assert(raws.take(empires@.len() as int) =~= raws);
    }
    output
}

/// An export bundle: the blocks of `empires` with line breaks `newline`.
pub fn format_empire_bundle(empires: &[EmpireDesign], newline: &str) -> (r: String)
    ensures
        text_bytes(r) == formatted(raws_of(designs_view(empires@)), newline.spec_bytes(), false),
{
    format_empire_file(empires, newline, false)
}


/// The state of an import after some of the incoming designs.
pub struct ImportOutcome {
    pub designs: Seq<DesignView>,
    pub replaced_at: Set<usize>,
    pub imported: nat,
    pub replaced: nat,
    pub skipped: nat,
}

/// The first design of `ds` at or after `i` that is the same empire as `d`.
pub open spec fn first_match(ds: Seq<DesignView>, d: DesignView, i: int) -> Option<int>
    decreases ds.len() - i,
{
    if !(0 <= i < ds.len()) {
        None
    } else if same_identity(ds[i], d) {
        Some(i)
    } else {
        first_match(ds, d, i + 1)
    }
}

/// One incoming design: a duplicate is skipped, replaces the first matching
/// design (once per position; a second one is skipped) or is appended, by policy;
/// a new empire is appended.
pub open spec fn import_one(st: ImportOutcome, d: DesignView, policy: ConflictPolicy) -> ImportOutcome {
    let appended = ImportOutcome {
        designs: st.designs.push(d),
        replaced_at: st.replaced_at,
        imported: st.imported + 1,
        replaced: st.replaced,
        skipped: st.skipped,
    };
    let skipped = ImportOutcome {
        designs: st.designs,
        replaced_at: st.replaced_at,
        imported: st.imported,
        replaced: st.replaced,
        skipped: st.skipped + 1,
    };
    match first_match(st.designs, d, 0) {
        Some(i) => match policy {
            ConflictPolicy::Skip => skipped,
            ConflictPolicy::Replace => if !st.replaced_at.contains(i as usize) {
                ImportOutcome {
                    designs: st.designs.update(i, d),
                    replaced_at: st.replaced_at.insert(i as usize),
                    imported: st.imported,
                    replaced: st.replaced + 1,
                    skipped: st.skipped,
                }
            } else {
                skipped
            },
            ConflictPolicy::Append => appended,
        },
        None => appended,
    }
}

/// The designs of the target file after importing `incoming` in order.
pub open spec fn import_all(
    targets: Seq<DesignView>,
    incoming: Seq<DesignView>,
    policy: ConflictPolicy,
) -> ImportOutcome
    decreases incoming.len(),
{
    if incoming.len() == 0 {
        ImportOutcome {
            designs: targets,
            replaced_at: Set::empty(),
            imported: 0,
            replaced: 0,
            skipped: 0,
        }
    } else {
        import_one(import_all(targets, incoming.drop_last(), policy), incoming.last(), policy)
    }
}

pub proof fn lemma_first_match_range(ds: Seq<DesignView>, d: DesignView, i: int)
    requires
        0 <= i,
    ensures
        first_match(ds, d, i) matches Some(k) ==> i <= k < ds.len() && same_identity(ds[k], d),
    decreases ds.len() - i,
{
    if 0 <= i < ds.len() && !same_identity(ds[i], d) {
        lemma_first_match_range(ds, d, i + 1);
    }
}

pub proof fn lemma_import_counts(targets: Seq<DesignView>, incoming: Seq<DesignView>, policy: ConflictPolicy)
    ensures
        import_all(targets, incoming, policy).imported + import_all(targets, incoming, policy).replaced
            + import_all(targets, incoming, policy).skipped == incoming.len(),
        import_all(targets, incoming, policy).designs.len() == targets.len() + import_all(
            targets,
            incoming,
            policy,
        ).imported,
    decreases incoming.len(),
{
    if incoming.len() > 0 {
        lemma_import_counts(targets, incoming.drop_last(), policy);
        let st = import_all(targets, incoming.drop_last(), policy);
        lemma_first_match_range(st.designs, incoming.last(), 0);
    }
}

pub fn copy_designs(ds: &[EmpireDesign]) -> (r: Vec<EmpireDesign>)
    ensures
        designs_view(r@) == designs_view(ds@),
{
    let mut r: Vec<EmpireDesign> = Vec::new();
    let mut i: usize = 0;
    while i < ds.len()
        invariant
            i <= ds@.len(),
            r@.len() == i,
            forall|j: int| 0 <= j < i ==> (#[trigger] r@[j])@ == ds@[j]@,
        decreases ds@.len() - i,
    {
        r.push(ds[i].duplicate());
        i = i + 1;
    }
    assert(designs_view(r@) =~= designs_view(ds@));
    r
}

fn find_conflict(ds: &Vec<EmpireDesign>, d: &EmpireDesign) -> (r: Option<usize>)
    ensures
        r matches Some(i) ==> first_match(designs_view(ds@), d@, 0) == Some(i as int) && i
            < ds@.len(),
        r is None ==> first_match(designs_view(ds@), d@, 0) is None,
{
    let ghost v = designs_view(ds@);
    let mut i: usize = 0;
    while i < ds.len()
        invariant
            i <= ds@.len(),
            v == designs_view(ds@),
            v.len() == ds@.len(),
            first_match(v, d@, 0) == first_match(v, d@, i as int),
        decreases ds@.len() - i,
    {
        assert(v[i as int] == ds@[i as int]@);
        if has_same_identity(&ds[i], d) {
            return Some(i);
        }
        i = i + 1;
    }
    None
}

fn starts_with_bom_bytes(b: &[u8]) -> (r: bool)
    ensures
        r == starts_with_bom(b@),
{
    let r = b.len() >= 3 && b[0] == 0xEF && b[1] == 0xBB && b[2] == 0xBF;
    proof {
        if b@.len() >= 3 {
            if r {
                assert(b@.subrange(0, 3) =~= bom());
            } else {
                assert(b@.subrange(0, 3)[0] == b@[0]);
                assert(b@.subrange(0, 3)[1] == b@[1]);
                assert(b@.subrange(0, 3)[2] == b@[2]);
            }
        }
    }
    r
}

/// Imports `incoming` into the target file `target_content`, whose designs are
/// `target_empires`: the new file text (with the target's line breaks and byte
/// order mark) and what was done.
pub fn apply_import(
    target_content: &str,
    target_empires: &[EmpireDesign],
    incoming: &[EmpireDesign],
    policy: ConflictPolicy,
) -> (r: (String, ImportReport))
    ensures
        ({
            let o = import_all(designs_view(target_empires@), designs_view(incoming@), policy);
            &&& text_bytes(r.0) == formatted(
                raws_of(o.designs),
                newline_of(target_content.spec_bytes()),
                starts_with_bom(target_content.spec_bytes()),
            )
            &&& r.1.imported == o.imported
            &&& r.1.replaced == o.replaced
            &&& r.1.skipped == o.skipped
            &&& r.1.backup_path is None
        }),
{
    let ghost tv = designs_view(target_empires@);
    let ghost iv = designs_view(incoming@);
    let newline = detect_newline(target_content);
    let has_bom = starts_with_bom_bytes(target_content.as_bytes());
    let mut report = ImportReport { imported: 0, replaced: 0, skipped: 0, backup_path: None };
    let mut output_empires = copy_designs(target_empires);
    let mut replaced_indices: BTreeSet<usize> = BTreeSet::new();
    proof {
        assert(iv.take(0) =~= Seq::<DesignView>::empty());
    }
    let mut i: usize = 0;
    while i < incoming.len()
        invariant
            i <= incoming@.len(),
            iv == designs_view(incoming@),
            iv.len() == incoming@.len(),
            report.backup_path is None,
            import_all(tv, iv.take(i as int), policy) == (ImportOutcome {
                designs: designs_view(output_empires@),
                replaced_at: replaced_indices@,
                imported: report.imported as nat,
                replaced: report.replaced as nat,
                skipped: report.skipped as nat,
            }),
        decreases incoming@.len() - i,
    {
        let ghost st = import_all(tv, iv.take(i as int), policy);
        proof {
            lemma_import_counts(tv, iv.take(i as int), policy);
            assert(iv.take(i + 1).drop_last() =~= iv.take(i as int));
            assert(iv.take(i + 1).last() == incoming@[i as int]@);
        }
        let empire = &incoming[i];
        let conflict_index = find_conflict(&output_empires, empire);
        let ghost expected = import_one(st, empire@, policy);
        assert(import_all(tv, iv.take(i + 1), policy) == expected);
        match (conflict_index, policy) {
            (Some(_), ConflictPolicy::Skip) => {
                report.skipped = report.skipped + 1;
                assert(expected.skipped == report.skipped);
                assert(expected.designs == designs_view(output_empires@));
            },
            (Some(index), ConflictPolicy::Replace) => {
                let ghost old_set = replaced_indices@;
                if replaced_indices.insert(index) {
                    assert(!old_set.contains(index));
                    let ghost old_view = designs_view(output_empires@);
                    output_empires.set(index, empire.duplicate());
                    assert(designs_view(output_empires@) =~= old_view.update(index as int, empire@));
                    report.replaced = report.replaced + 1;
                    assert(expected.replaced_at == replaced_indices@);
                    assert(expected.designs == designs_view(output_empires@));
                } else {
                    assert(old_set.contains(index));
                    assert(replaced_indices@ =~= old_set);
                    report.skipped = report.skipped + 1;
                    assert(expected.replaced_at == replaced_indices@);
                }
            },
            _ => {
                let ghost old_view = designs_view(output_empires@);
                output_empires.push(empire.duplicate());
                assert(designs_view(output_empires@) =~= old_view.push(empire@));
                report.imported = report.imported + 1;
                assert(expected.designs == designs_view(output_empires@));
            },
        }
        assert(expected == (ImportOutcome {
            designs: designs_view(output_empires@),
            replaced_at: replaced_indices@,
            imported: report.imported as nat,
            replaced: report.replaced as nat,
            skipped: report.skipped as nat,
        }));
        i = i + 1;
    }
    proof {
        assert(iv.take(incoming@.len() as int) =~= iv);
    }
    let output = format_empire_file(output_empires.as_slice(), newline, has_bom);
    (output, report)
}


/// The designs at the selected positions, in order; positions past the end select
/// nothing.
pub open spec fn selected_upto(es: Seq<DesignView>, sel: Set<usize>, n: int) -> Seq<DesignView>
    decreases n,
{
    if n <= 0 {
        Seq::empty()
    } else {
        let prev = selected_upto(es, sel, n - 1);
        if sel.contains((n - 1) as usize) {
            prev.push(es[n - 1])
        } else {
            prev
        }
    }
}

pub open spec fn selection(es: Seq<DesignView>, sel: Set<usize>) -> Seq<DesignView> {
    selected_upto(es, sel, es.len() as int)
}

/// The designs of `empires` whose positions are in `selected`, in file order.
pub fn selected_designs(empires: &[EmpireDesign], selected: &BTreeSet<usize>) -> (r: Vec<
    EmpireDesign,
>)
    ensures
        designs_view(r@) == selection(designs_view(empires@), selected@),
{
    let ghost es = designs_view(empires@);
    let mut r: Vec<EmpireDesign> = Vec::new();
    let mut i: usize = 0;
    while i < empires.len()
        invariant
            i <= empires@.len(),
            es == designs_view(empires@),
            es.len() == empires@.len(),
            designs_view(r@) == selected_upto(es, selected@, i as int),
        decreases empires@.len() - i,
    {
        if selected.contains(&i) {
            let ghost before = designs_view(r@);
            r.push(empires[i].duplicate());
            assert(designs_view(r@) =~= before.push(es[i as int]));
        }
        i = i + 1;
    }
    r
}

/// Fails with `NoSelection` when nothing is selected.
pub fn ensure_selection(selected: &BTreeSet<usize>) -> (r: Result<(), FileError>)
    ensures
        selected@.is_empty() ==> r matches Err(FileError::NoSelection),
        !selected@.is_empty() ==> r is Ok,
{
    if selected.is_empty() {
        Err(FileError::NoSelection)
    } else {
        Ok(())
    }
}

/// The text of an export bundle of the selected designs, checked to parse back, and
/// how many designs it holds. `None` where that check cannot read a quoted string
/// of the bundle (see `Quoted::Broken`).
pub fn export_bundle_text(empires: &[EmpireDesign], selected: &BTreeSet<usize>) -> (r: Option<
    Result<(String, usize), FileError>,
>)
    ensures
        ({
            let sel = selection(designs_view(empires@), selected@);
            let out = formatted(raws_of(sel), crlf(), false);
            if selected@.is_empty() || sel.len() == 0 {
                r matches Some(Err(FileError::NoSelection))
            } else {
                match parse_designs(out) {
                    Parsed::Broken => r is None,
                    Parsed::Failed(e) => r matches Some(Err(FileError::Parse(pe))) && pe@ == e,
                    Parsed::Designs(_) => r matches Some(Ok((text, n))) && text_bytes(text) == out
                        && n == sel.len(),
                }
            }
        }),
{
    if selected.is_empty() {
        return Some(Err(FileError::NoSelection));
    }
    let selected_empires = selected_designs(empires, selected);
    let count = selected_empires.len();
    if count == 0 {
        return Some(Err(FileError::NoSelection));
    }
    let output = format_empire_bundle(selected_empires.as_slice(), crlf_text());
    match try_parse_empire_designs(output.as_str()) {
        None => None,
        Some(Err(e)) => Some(Err(FileError::Parse(e))),
        Some(Ok(_)) => Some(Ok((output, count))),
    }
}

/// What an import into the target file comes to.
pub enum ImportPlan {
    /// Nothing is added or replaced: the file stays as it is.
    Unchanged(ImportReport),
    /// The file's new text.
    Rewrite(String, ImportReport),
}

/// Plans the import of the selected source designs into the target file, whose
/// text is `target_content` and designs `target_empires`.
pub fn plan_import(
    target_content: &str,
    target_empires: &[EmpireDesign],
    source_empires: &[EmpireDesign],
    selected: &BTreeSet<usize>,
    policy: ConflictPolicy,
) -> (r: Result<ImportPlan, FileError>)
    ensures
        ({
            let sel = selection(designs_view(source_empires@), selected@);
            let o = import_all(designs_view(target_empires@), sel, policy);
            let out = formatted(
                raws_of(o.designs),
                newline_of(target_content.spec_bytes()),
                starts_with_bom(target_content.spec_bytes()),
            );
            if selected@.is_empty() || sel.len() == 0 {
                r matches Err(FileError::NoSelection)
            } else {
                &&& r is Ok
                &&& r matches Ok(plan) ==> match plan {
                    ImportPlan::Unchanged(report) => o.imported == 0 && o.replaced == 0
                        && report.imported == 0 && report.replaced == 0 && report.skipped
                        == o.skipped && report.backup_path is None,
                    ImportPlan::Rewrite(text, report) => (o.imported > 0 || o.replaced > 0)
                        && text_bytes(text) == out && report.imported == o.imported
                        && report.replaced == o.replaced && report.skipped == o.skipped
                        && report.backup_path is None,
                }
            }
        }),
{
    if selected.is_empty() {
        return Err(FileError::NoSelection);
    }
    let selected_empires = selected_designs(source_empires, selected);
    if selected_empires.len() == 0 {
        return Err(FileError::NoSelection);
    }
    let (new_content, report) = apply_import(
        target_content,
        target_empires,
        selected_empires.as_slice(),
        policy,
    );
    if report.imported == 0 && report.replaced == 0 {
        Ok(ImportPlan::Unchanged(report))
    } else {
        Ok(ImportPlan::Rewrite(new_content, report))
    }
}

/// The file name of `path` (`Path::file_name`), as text with every invalid sequence
/// replaced (`OsStr::to_string_lossy`); `None` when the path has no file name.
pub uninterp spec fn path_file_name(path: &std::path::Path) -> Option<Seq<char>>;

/// `path` with its file name replaced by `name` (`Path::with_file_name`).
pub uninterp spec fn path_with_name(path: &std::path::Path, name: Seq<char>) -> std::path::PathBuf;

/// Calls `std::path::Path::file_name` and turns the name into text with
/// `OsStr::to_string_lossy` (`OsStr` cannot be named here, so both calls stand in one
/// wrapper). The result is `path_file_name` of the path: both calls depend on the
/// path alone.
#[verifier::external_body]
fn file_name_text(path: &std::path::Path) -> (r: Option<String>)
    ensures
        r matches Some(t) ==> path_file_name(path) == Some(t@),
        r is None ==> path_file_name(path) is None,
{
    match path.file_name() {
        Some(name) => Some(name.to_string_lossy().into_owned()),
        None => None,
    }
}

/// Calls `std::path::Path::with_file_name`; the result is `path_with_name` of the path
/// and the name, on which alone it depends.
#[verifier::external_body]
fn path_with_file_name(path: &std::path::Path, name: &str) -> (r: std::path::PathBuf)
    ensures
        r == path_with_name(path, name@),
{
    path.with_file_name(name)
}

/// `<file_name>.<label>.<stamp>.<process_id>.<extension>`.
pub open spec fn suffixed_name(
    file_name: Seq<char>,
    label: Seq<char>,
    stamp: nat,
    process_id: nat,
    extension: Seq<char>,
) -> Seq<char> {
    file_name + "."@ + label + "."@ + decimal(stamp) + "."@ + decimal(process_id) + "."@
        + extension
}

/// The file name `<file_name>.<label>.<stamp>.<process_id>.<extension>`.
pub fn suffixed_file_name(
    file_name: &str,
    label: &str,
    stamp: u64,
    process_id: u32,
    extension: &str,
) -> (r: String)
    ensures
        r@ == suffixed_name(file_name@, label@, stamp as nat, process_id as nat, extension@),
{
    let mut out = String::from_str(file_name);
    out.append(".");
    out.append(label);
    out.append(".");
    push_decimal(&mut out, stamp);
    out.append(".");
    push_decimal(&mut out, process_id as u64);
    out.append(".");
    out.append(extension);
    out
}

/// The path that `suffixed_path` gives: a sibling of `path` named after its file
/// name, or `None` when it has none.
pub open spec fn suffixed_path_of(
    path: &std::path::Path,
    label: Seq<char>,
    extension: Seq<char>,
    stamp: nat,
    process_id: nat,
) -> Option<std::path::PathBuf> {
    match path_file_name(path) {
        Some(name) => Some(
            path_with_name(path, suffixed_name(name, label, stamp, process_id, extension)),
        ),
        None => None,
    }
}

/// A sibling of `path` named after its file name, `label`, the time `stamp` (in
/// seconds since the Unix epoch), the process id and `extension`; `MissingFileName`
/// when the path has no file name.
pub fn suffixed_path(
    path: &std::path::Path,
    label: &str,
    extension: &str,
    stamp: u64,
    process_id: u32,
) -> (r: Result<std::path::PathBuf, FileError>)
    ensures
        match suffixed_path_of(path, label@, extension@, stamp as nat, process_id as nat) {
            Some(p) => r == Ok::<std::path::PathBuf, FileError>(p),
            None => r matches Err(FileError::MissingFileName),
        },
{
    match file_name_text(path) {
        None => Err(FileError::MissingFileName),
        Some(file_name) => {
            let name = suffixed_file_name(file_name.as_str(), label, stamp, process_id, extension);
            Ok(path_with_file_name(path, name.as_str()))
        },
    }
}


/// Where the target file is copied before an import rewrites it:
/// `<file name>.civshare.<stamp>.<process_id>.bak` beside it.
pub fn backup_path_for(path: &std::path::Path, stamp: u64, process_id: u32) -> (r: Result<
    std::path::PathBuf,
    FileError,
>)
    ensures
        match suffixed_path_of(path, "civshare"@, "bak"@, stamp as nat, process_id as nat) {
            Some(p) => r == Ok::<std::path::PathBuf, FileError>(p),
            None => r matches Err(FileError::MissingFileName),
        },
{
    suffixed_path(path, "civshare", "bak", stamp, process_id)
}

/// Where the new text of the target file is written before it replaces the file:
/// `<file name>.civshare.<stamp>.<process_id>.tmp` beside it.
pub fn temp_path_for(path: &std::path::Path, stamp: u64, process_id: u32) -> (r: Result<
    std::path::PathBuf,
    FileError,
>)
    ensures
        match suffixed_path_of(path, "civshare"@, "tmp"@, stamp as nat, process_id as nat) {
            Some(p) => r == Ok::<std::path::PathBuf, FileError>(p),
            None => r matches Err(FileError::MissingFileName),
        },
{
    suffixed_path(path, "civshare", "tmp", stamp, process_id)
}

} // verus!
