//! Splitting a Stellaris `user_empire_designs` file into its empire design blocks.
use vstd::prelude::*;
use vstd::string::*;

use crate::scan::{
    block_end, brace_close, find_matching_brace, first_offset, include_single_trailing_newline,
    lemma_brace_close_range, lemma_unquote_end, parse_quoted, skip_ascii_ws, skip_blanks,
    skip_ws_and_bom, unquote, LookupScan, QuoteScan, Lookup, Quoted, EQUALS, OPEN_BRACE, QUOTE,
};
pub use crate::summary::EmpireSummary;
use crate::summary::{extract_summary, key_of, summary_key, summary_of, SummaryView};
use crate::text::{
    append_decimal, append_str, decimal, lemma_boundary_near_ascii, lemma_str_valid, str_slice,
    text_bytes,
};
use vstd::utf8::encode_utf8;

verus! {

/// One empire design block of a file.
#[derive(Debug, PartialEq, Eq)]
pub struct EmpireDesign {
    pub name: String,
    pub key: Option<String>,
    pub start_byte: usize,
    pub end_byte: usize,
    pub raw_text: String,
    pub summary: EmpireSummary,
}

/// An `EmpireDesign` with its strings taken as UTF-8 bytes.
pub struct DesignView {
    pub name: Seq<u8>,
    pub key: Option<Seq<u8>>,
    pub start: int,
    pub end: int,
    pub raw: Seq<u8>,
    pub summary: SummaryView,
}

impl View for EmpireDesign {
    type V = DesignView;

    open spec fn view(&self) -> DesignView {
        DesignView {
            name: text_bytes(self.name),
            key: match self.key {
                Some(k) => Some(text_bytes(k)),
                None => None,
            },
            start: self.start_byte as int,
            end: self.end_byte as int,
            raw: text_bytes(self.raw_text),
            summary: self.summary@,
        }
    }
}

pub open spec fn designs_view(v: Seq<EmpireDesign>) -> Seq<DesignView> {
    v.map_values(|d: EmpireDesign| d@)
}

impl EmpireDesign {
    /// A copy with the same strings and offsets.
    pub fn duplicate(&self) -> (r: EmpireDesign)
        ensures
            r@ == self@,
    {
        EmpireDesign {
            name: self.name.clone(),
            key: match &self.key {
                Some(k) => Some(k.clone()),
                None => None,
            },
            start_byte: self.start_byte,
            end_byte: self.end_byte,
            raw_text: self.raw_text.clone(),
            summary: self.summary.duplicate(),
        }
    }
}

impl Clone for EmpireDesign {
    fn clone(&self) -> (r: EmpireDesign)
        ensures
            r@ == self@,
    {
        self.duplicate()
    }
}

/// Why a file is not a sequence of empire design blocks.
#[derive(Debug)]
pub enum ParseError {
    ExpectedEmpireName(usize),
    UnterminatedString(usize),
    ExpectedEquals { name: String, byte: usize },
    ExpectedOpenBrace { name: String, byte: usize },
    UnterminatedBlock { name: String, byte: usize },
}

/// A `ParseError` with its name taken as UTF-8 bytes.
pub enum ParseErrorView {
    ExpectedEmpireName(int),
    UnterminatedString(int),
    ExpectedEquals(Seq<u8>, int),
    ExpectedOpenBrace(Seq<u8>, int),
    UnterminatedBlock(Seq<u8>, int),
}

impl View for ParseError {
    type V = ParseErrorView;

    open spec fn view(&self) -> ParseErrorView {
        match self {
            ParseError::ExpectedEmpireName(b) => ParseErrorView::ExpectedEmpireName(*b as int),
            ParseError::UnterminatedString(b) => ParseErrorView::UnterminatedString(*b as int),
            ParseError::ExpectedEquals { name, byte } => ParseErrorView::ExpectedEquals(
                text_bytes(*name),
                *byte as int,
            ),
            ParseError::ExpectedOpenBrace { name, byte } => ParseErrorView::ExpectedOpenBrace(
                text_bytes(*name),
                *byte as int,
            ),
            ParseError::UnterminatedBlock { name, byte } => ParseErrorView::UnterminatedBlock(
                text_bytes(*name),
                *byte as int,
            ),
        }
    }
}

/// The outcome of parsing a file.
pub enum Parsed {
    Designs(Seq<DesignView>),
    Failed(ParseErrorView),
    /// A quoted string in the file cannot be formed (see `Quoted::Broken`).
    Broken,
}

pub open spec fn with_designs(p: Seq<DesignView>, r: Parsed) -> Parsed {
    match r {
        Parsed::Designs(ds) => Parsed::Designs(p + ds),
        _ => r,
    }
}

pub proof fn lemma_skip_blanks(s: Seq<u8>, i: int)
    requires
        0 <= i <= s.len(),
    ensures
        i <= skip_blanks(s, i) <= s.len(),
    decreases s.len() - i,
{
    if i < s.len() && crate::scan::is_blank(s[i]) {
        lemma_skip_blanks(s, i + 1);
    }
}

/// The design block that starts at `pos` (on its opening quote): its name, `=`,
/// `{`, everything up to the matching `}`, and one line break after it.
pub open spec fn parse_from(s: Seq<u8>, pos: int) -> Parsed
    decreases s.len() - pos,
{
    if !(0 <= pos < s.len()) {
        Parsed::Designs(Seq::empty())
    } else if s[pos] != QUOTE {
        Parsed::Failed(ParseErrorView::ExpectedEmpireName(pos))
    } else {
        match unquote(s, pos + 1, s.len() as int) {
            Quoted::Broken => Parsed::Broken,
            Quoted::Unterminated => Parsed::Failed(ParseErrorView::UnterminatedString(pos)),
            Quoted::Closed(name, after) => {
                let p2 = skip_blanks(s, after);
                if !(p2 < s.len() && s[p2] == EQUALS) {
                    Parsed::Failed(ParseErrorView::ExpectedEquals(name, p2))
                } else {
                    let p3 = skip_blanks(s, p2 + 1);
                    if !(p3 < s.len() && s[p3] == OPEN_BRACE) {
                        Parsed::Failed(ParseErrorView::ExpectedOpenBrace(name, p3))
                    } else {
                        match brace_close(s, p3, 0, false, false) {
                            None => Parsed::Failed(ParseErrorView::UnterminatedBlock(name, pos)),
                            Some(close) => {
                                let end = block_end(s, close + 1);
                                let raw = s.subrange(pos, end);
                                match (summary_of(raw), key_of(raw)) {
                                    (Some(sum), Lookup::Missing) => {
                                        proof {
                                            lemma_unquote_end(s, pos + 1, s.len() as int);
                                            lemma_brace_close_range(s, p3, 0, false, false);
                                            lemma_skip_blanks(s, after);
                                            lemma_skip_blanks(s, p2 + 1);
                                            lemma_skip_blanks(s, end);
                                        }
                                        with_designs(
                                            seq![
                                                DesignView {
                                                    name: name,
                                                    key: None,
                                                    start: pos,
                                                    end: end,
                                                    raw: raw,
                                                    summary: sum,
                                                },
                                            ],
                                            parse_from(s, skip_blanks(s, end)),
                                        )
                                    },
                                    (Some(sum), Lookup::Found(k)) => {
                                        proof {
                                            lemma_unquote_end(s, pos + 1, s.len() as int);
                                            lemma_brace_close_range(s, p3, 0, false, false);
                                            lemma_skip_blanks(s, after);
                                            lemma_skip_blanks(s, p2 + 1);
                                            lemma_skip_blanks(s, end);
                                        }
                                        with_designs(
                                            seq![
                                                DesignView {
                                                    name: name,
                                                    key: Some(k),
                                                    start: pos,
                                                    end: end,
                                                    raw: raw,
                                                    summary: sum,
                                                },
                                            ],
                                            parse_from(s, skip_blanks(s, end)),
                                        )
                                    },
                                    _ => Parsed::Broken,
                                }
                            },
                        }
                    }
                }
            },
        }
    }
}

/// The empire designs of a whole file: the blocks one after another, separated by
/// blanks, after an optional byte order mark.
pub open spec fn parse_designs(s: Seq<u8>) -> Parsed {
    parse_from(s, first_offset(s))
}

pub open spec fn parse_result_view(r: Result<Vec<EmpireDesign>, ParseError>) -> Parsed {
    match r {
        Ok(v) => Parsed::Designs(designs_view(v@)),
        Err(e) => Parsed::Failed(e@),
    }
}


proof fn lemma_with_designs_push(p: Seq<DesignView>, d: DesignView, r: Parsed)
    ensures
        with_designs(p, with_designs(seq![d], r)) == with_designs(p.push(d), r),
{
    match r {
        Parsed::Designs(ds) => {
            assert(p + (seq![d] + ds) =~= p.push(d) + ds);
        },
        _ => {},
    }
}

/// Parses a whole file; `None` exactly where a quoted string in it cannot be formed
/// (see `Quoted::Broken`).
pub fn try_parse_empire_designs(input: &str) -> (r: Option<Result<Vec<EmpireDesign>, ParseError>>)
    ensures
        r is None <==> parse_designs(input.spec_bytes()) is Broken,
        r matches Some(x) ==> parse_designs(input.spec_bytes()) == parse_result_view(x),
{
    let b = input.as_bytes();
    let ghost s = b@;
    proof {
        lemma_str_valid(input);
    }
    let mut empires: Vec<EmpireDesign> = Vec::new();
    let mut pos = skip_ws_and_bom(b);
    proof {
        if s.len() >= 3 {
            lemma_skip_blanks(s, 3);
        }
        lemma_skip_blanks(s, 0);
        assert(with_designs(Seq::empty(), parse_from(s, pos as int)) == parse_from(s, pos as int))
            by {
            match parse_from(s, pos as int) {
                Parsed::Designs(ds) => {
                    assert(Seq::<DesignView>::empty() + ds =~= ds);
                },
                _ => {},
            }
        }
    }
    while pos < b.len()
        invariant
            b@ == s,
            s == input.spec_bytes(),
            pos <= s.len(),
            parse_designs(s) == with_designs(designs_view(empires@), parse_from(s, pos as int)),
        decreases s.len() - pos,
    {
        proof {
            lemma_str_valid(input);
        }
        if b[pos] != QUOTE {
            return Some(Err(ParseError::ExpectedEmpireName(pos)));
        }
        let start_byte = pos;
        proof {
            lemma_boundary_near_ascii(b@, pos + 1);
        }
        let (name, after) = match parse_quoted(input, b, pos, b.len()) {
            QuoteScan::Broken => {
                return None;
            },
            QuoteScan::Unterminated => {
                return Some(Err(ParseError::UnterminatedString(pos)));
            },
            QuoteScan::Closed(n, a) => (n, a),
        };
        proof {
            lemma_unquote_end(s, pos + 1, s.len() as int);
        }
        let p2 = skip_ascii_ws(b, after);
        proof {
            lemma_skip_blanks(s, after as int);
        }
        if p2 >= b.len() || b[p2] != EQUALS {
            return Some(Err(ParseError::ExpectedEquals { name, byte: p2 }));
        }
        let p3 = skip_ascii_ws(b, p2 + 1);
        proof {
            lemma_skip_blanks(s, p2 + 1);
        }
        if p3 >= b.len() || b[p3] != OPEN_BRACE {
            return Some(Err(ParseError::ExpectedOpenBrace { name, byte: p3 }));
        }
        let close = match find_matching_brace(b, p3) {
            None => {
                return Some(Err(ParseError::UnterminatedBlock { name: name.clone(), byte: start_byte }));
            },
            Some(c) => c,
        };
        proof {
            lemma_brace_close_range(s, p3 as int, 0, false, false);
        }
        let end_byte = include_single_trailing_newline(b, close + 1);
        proof {
            lemma_boundary_near_ascii(s, start_byte as int);
            lemma_boundary_near_ascii(s, end_byte as int);
        }
        let raw = str_slice(input, start_byte, end_byte);
        let raw_text = raw.to_owned();
        let raw_str = raw_text.as_str();
        let summary = match extract_summary(raw_str) {
            None => {
                return None;
            },
            Some(x) => x,
        };
        let key = match summary_key(raw_str) {
            LookupScan::Missing => None,
            LookupScan::Found(k) => Some(k),
            LookupScan::Broken => {
                return None;
            },
        };
        let design = EmpireDesign { name, key, start_byte, end_byte, raw_text, summary };
        let ghost before = designs_view(empires@);
        let ghost next = skip_blanks(s, end_byte as int);
        proof {
            lemma_with_designs_push(before, design@, parse_from(s, next));
        }
        empires.push(design);
        assert(designs_view(empires@) =~= before.push(design@));
        pos = skip_ascii_ws(b, end_byte);
        proof {
            lemma_skip_blanks(s, end_byte as int);
        }
    }
    proof {
        assert(designs_view(empires@) + Seq::<DesignView>::empty() =~= designs_view(empires@));
    }
    Some(Ok(empires))
}

/// Parses a whole file into its empire design blocks.
pub fn parse_empire_designs(input: &str) -> (r: Result<Vec<EmpireDesign>, ParseError>)
    requires
        !(parse_designs(input.spec_bytes()) is Broken),
    ensures
        parse_designs(input.spec_bytes()) == parse_result_view(r),
{
    match try_parse_empire_designs(input) {
        Some(r) => r,
        None => {
            assert(false);
            Ok(Vec::new())
        },
    }
}

/// Whether two designs are the same empire: the same name, or the same key.
pub open spec fn same_identity(left: DesignView, right: DesignView) -> bool {
    left.name == right.name || (left.key is Some && right.key is Some && left.key == right.key)
}

/// Whether two designs are the same empire: the same name, or both have a key and
/// the keys are equal.
pub fn has_same_identity(left: &EmpireDesign, right: &EmpireDesign) -> (r: bool)
    ensures
        r == same_identity(left@, right@),
{
    proof {
        if left.name@ == right.name@ {
            assert(text_bytes(left.name) == text_bytes(right.name));
        }
        if text_bytes(left.name) == text_bytes(right.name) {
            crate::text::lemma_encode_injective(left.name@, right.name@);
        }
    }
    if left.name == right.name {
        return true;
    }
    match (&left.key, &right.key) {
        (Some(l), Some(k)) => {
            proof {
                if text_bytes(*l) == text_bytes(*k) {
                    crate::text::lemma_encode_injective(l@, k@);
                }
            }
            *l == *k
        },
        _ => false,
    }
}


/// The text of a parse error, as bytes.
pub open spec fn error_message(e: ParseErrorView) -> Seq<u8> {
    match e {
        ParseErrorView::ExpectedEmpireName(b) => "expected top-level empire name at byte ".spec_bytes()
            + encode_utf8(decimal(b as nat)),
        ParseErrorView::UnterminatedString(b) => "unterminated quoted string starting at byte ".spec_bytes()
            + encode_utf8(decimal(b as nat)),
        ParseErrorView::ExpectedEquals(name, b) => "expected '=' after empire name '".spec_bytes()
            + name + "' at byte ".spec_bytes() + encode_utf8(decimal(b as nat)),
        ParseErrorView::ExpectedOpenBrace(name, b) => "expected '{' after empire name '".spec_bytes()
            + name + "' at byte ".spec_bytes() + encode_utf8(decimal(b as nat)),
        ParseErrorView::UnterminatedBlock(name, b) => "unterminated empire block '".spec_bytes() + name
            + "' starting at byte ".spec_bytes() + encode_utf8(decimal(b as nat)),
    }
}

impl ParseError {
    /// The error as a sentence, as its `Display` shows it.
    pub fn message(&self) -> (r: String)
        ensures
            text_bytes(r) == error_message(self@),
    {
        let mut out = String::new();
        assert(text_bytes(out) =~= Seq::<u8>::empty());
        match self {
            ParseError::ExpectedEmpireName(b) => {
                append_str(&mut out, "expected top-level empire name at byte ");
                append_decimal(&mut out, *b as u64);
            },
            ParseError::UnterminatedString(b) => {
                append_str(&mut out, "unterminated quoted string starting at byte ");
                append_decimal(&mut out, *b as u64);
            },
            ParseError::ExpectedEquals { name, byte } => {
                append_str(&mut out, "expected '=' after empire name '");
                append_str(&mut out, name.as_str());
                append_str(&mut out, "' at byte ");
                append_decimal(&mut out, *byte as u64);
            },
            ParseError::ExpectedOpenBrace { name, byte } => {
                append_str(&mut out, "expected '{' after empire name '");
                append_str(&mut out, name.as_str());
                append_str(&mut out, "' at byte ");
                append_decimal(&mut out, *byte as u64);
            },
            ParseError::UnterminatedBlock { name, byte } => {
                append_str(&mut out, "unterminated empire block '");
                append_str(&mut out, name.as_str());
                append_str(&mut out, "' starting at byte ");
                append_decimal(&mut out, *byte as u64);
            },
        }
        assert(text_bytes(out) =~= error_message(self@));
        out
    }
}

/// Parses text that must hold exactly one design block.
pub fn validate_single_empire(input: &str) -> (r: Result<EmpireDesign, String>)
    requires
        !(parse_designs(input.spec_bytes()) is Broken),
    ensures
        match parse_designs(input.spec_bytes()) {
            Parsed::Designs(ds) => if ds.len() == 1 {
                r matches Ok(d) && d@ == ds[0]
            } else if ds.len() == 0 {
                r matches Err(m) && m@ == "No empire design blocks were found."@
            } else {
                r matches Err(m) && m@ == "Expected exactly one empire design block, but found multiple."@
            },
            Parsed::Failed(e) => r matches Err(m) && text_bytes(m) == error_message(e),
            Parsed::Broken => false,
        },
{
    let empires = match parse_empire_designs(input) {
        Ok(v) => v,
        Err(e) => {
            return Err(e.message());
        },
    };
    assert(designs_view(empires@).len() == empires@.len());
    if empires.len() == 1 {
        assert(designs_view(empires@)[0] == empires@[0]@);
        Ok(empires[0].clone())
    } else if empires.len() == 0 {
        Err(String::from_str("No empire design blocks were found."))
    } else {
        Err(String::from_str("Expected exactly one empire design block, but found multiple."))
    }
}

} // verus!
