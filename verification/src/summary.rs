//! What a design block shows at a glance: authority, government, origin, species,
//! ethics and civics, read line by line from the block's text.
use vstd::prelude::*;
use vstd::string::*;

use crate::scan::{
    apply_brace_delta, assignment_lookup, assignment_quoted_value, assignment_value_at,
    depth_after, first_quoted, first_quoted_in, is_block_assignment,
    Lookup, LookupScan, LF,
};
use crate::text::{text_bytes, trim_bounds, trim_range};

verus! {

/// The summary of an empire design.
#[derive(Debug, PartialEq, Eq)]
pub struct EmpireSummary {
    pub authority: Option<String>,
    pub government: Option<String>,
    pub origin: Option<String>,
    pub species_class: Option<String>,
    pub portrait: Option<String>,
    pub civics: Vec<String>,
    pub ethics: Vec<String>,
}

/// An `EmpireSummary` with every string taken as its UTF-8 bytes.
pub struct SummaryView {
    pub authority: Option<Seq<u8>>,
    pub government: Option<Seq<u8>>,
    pub origin: Option<Seq<u8>>,
    pub species_class: Option<Seq<u8>>,
    pub portrait: Option<Seq<u8>>,
    pub civics: Seq<Seq<u8>>,
    pub ethics: Seq<Seq<u8>>,
}

pub open spec fn opt_text(o: Option<String>) -> Option<Seq<u8>> {
    match o {
        Some(t) => Some(text_bytes(t)),
        None => None,
    }
}

pub open spec fn texts(v: Seq<String>) -> Seq<Seq<u8>> {
    v.map_values(|t: String| text_bytes(t))
}

impl View for EmpireSummary {
    type V = SummaryView;

    open spec fn view(&self) -> SummaryView {
        SummaryView {
            authority: opt_text(self.authority),
            government: opt_text(self.government),
            origin: opt_text(self.origin),
            species_class: opt_text(self.species_class),
            portrait: opt_text(self.portrait),
            civics: texts(self.civics@),
            ethics: texts(self.ethics@),
        }
    }
}

pub open spec fn empty_summary() -> SummaryView {
    SummaryView {
        authority: None,
        government: None,
        origin: None,
        species_class: None,
        portrait: None,
        civics: Seq::empty(),
        ethics: Seq::empty(),
    }
}

fn clone_opt_text(o: &Option<String>) -> (r: Option<String>)
    ensures
        opt_text(r) == opt_text(*o),
{
    match o {
        Some(t) => Some(t.clone()),
        None => None,
    }
}

fn clone_texts(v: &Vec<String>) -> (r: Vec<String>)
    ensures
        texts(r@) == texts(v@),
{
    let mut r: Vec<String> = Vec::new();
    let mut i: usize = 0;
    while i < v.len()
        invariant
            i <= v@.len(),
            r@.len() == i,
            forall|j: int| 0 <= j < i ==> text_bytes(#[trigger] r@[j]) == text_bytes(v@[j]),
        decreases v@.len() - i,
    {
        r.push(v[i].clone());
        i = i + 1;
    }
    assert(texts(r@) =~= texts(v@));
    r
}

impl EmpireSummary {
    /// A summary with nothing found.
    pub fn empty() -> (r: EmpireSummary)
        ensures
            r@ == empty_summary(),
    {
        let r = EmpireSummary {
            authority: None,
            government: None,
            origin: None,
            species_class: None,
            portrait: None,
            civics: Vec::new(),
            ethics: Vec::new(),
        };
        assert(texts(r.civics@) =~= Seq::<Seq<u8>>::empty());
        assert(texts(r.ethics@) =~= Seq::<Seq<u8>>::empty());
        r
    }

    /// A copy with the same strings.
    pub fn duplicate(&self) -> (r: EmpireSummary)
        ensures
            r@ == self@,
    {
        EmpireSummary {
            authority: clone_opt_text(&self.authority),
            government: clone_opt_text(&self.government),
            origin: clone_opt_text(&self.origin),
            species_class: clone_opt_text(&self.species_class),
            portrait: clone_opt_text(&self.portrait),
            civics: clone_texts(&self.civics),
            ethics: clone_texts(&self.ethics),
        }
    }
}

impl Clone for EmpireSummary {
    fn clone(&self) -> (r: EmpireSummary)
        ensures
            r@ == self@,
    {
        self.duplicate()
    }
}

impl Default for EmpireSummary {
    fn default() -> (r: EmpireSummary)
        ensures
            r@ == empty_summary(),
    {
        EmpireSummary::empty()
    }
}


/// The nested block of the design that is being read for the summary.
#[derive(Clone, Copy, Debug, PartialEq, Eq)]
pub enum Section {
    Species,
    Civics,
}

pub open spec fn authority_key() -> Seq<u8> {
    "authority".spec_bytes()
}

pub open spec fn government_key() -> Seq<u8> {
    "government".spec_bytes()
}

pub open spec fn origin_key() -> Seq<u8> {
    "origin".spec_bytes()
}

pub open spec fn ethic_key() -> Seq<u8> {
    "ethic".spec_bytes()
}

pub open spec fn species_key() -> Seq<u8> {
    "species".spec_bytes()
}

pub open spec fn civics_key() -> Seq<u8> {
    "civics".spec_bytes()
}

pub open spec fn class_key() -> Seq<u8> {
    "class".spec_bytes()
}

pub open spec fn portrait_key() -> Seq<u8> {
    "portrait".spec_bytes()
}

pub open spec fn design_key_key() -> Seq<u8> {
    "key".spec_bytes()
}

/// A field that is still unset takes the value found, if any; `None` when the
/// lookup is broken.
pub open spec fn fill(cur: Option<Seq<u8>>, found: Lookup) -> Option<Option<Seq<u8>>> {
    if cur is Some {
        Some(cur)
    } else {
        match found {
            Lookup::Missing => Some(None),
            Lookup::Found(v) => Some(Some(v)),
            Lookup::Broken => None,
        }
    }
}

/// A list grows by the value found, if any; `None` when the lookup is broken.
pub open spec fn collect(list: Seq<Seq<u8>>, found: Lookup) -> Option<Seq<Seq<u8>>> {
    match found {
        Lookup::Missing => Some(list),
        Lookup::Found(v) => Some(list.push(v)),
        Lookup::Broken => None,
    }
}

/// The state of the summary reader between lines.
pub struct ScanState {
    pub summary: SummaryView,
    pub depth: int,
    pub pending: Option<Section>,
    pub active: Option<(Section, int)>,
}

/// A line directly inside the design block (trimmed to `s[lo..hi]`): it may set the
/// authority, government and origin, add an ethic, and announce the species or
/// civics block.
pub open spec fn top_level_line(
    s: Seq<u8>,
    lo: int,
    hi: int,
    sum: SummaryView,
    pending: Option<Section>,
) -> Option<(SummaryView, Option<Section>)> {
    let a = fill(sum.authority, assignment_lookup(s, lo, hi, authority_key()));
    let g = fill(sum.government, assignment_lookup(s, lo, hi, government_key()));
    let o = fill(sum.origin, assignment_lookup(s, lo, hi, origin_key()));
    let e = collect(sum.ethics, assignment_lookup(s, lo, hi, ethic_key()));
    if a is Some && g is Some && o is Some && e is Some {
        let p1 = if assignment_value_at(s, lo, hi, species_key()) is Some {
            Some(Section::Species)
        } else {
            pending
        };
        let p2 = if assignment_value_at(s, lo, hi, civics_key()) is Some {
            Some(Section::Civics)
        } else {
            p1
        };
        Some(
            (
                SummaryView {
                    authority: a.unwrap(),
                    government: g.unwrap(),
                    origin: o.unwrap(),
                    species_class: sum.species_class,
                    portrait: sum.portrait,
                    civics: sum.civics,
                    ethics: e.unwrap(),
                },
                p2,
            ),
        )
    } else {
        None
    }
}

/// A line directly inside the species block sets the class and portrait; a line
/// directly inside the civics block adds the civic it quotes.
pub open spec fn section_line(
    s: Seq<u8>,
    lo: int,
    hi: int,
    line_depth: int,
    active: Option<(Section, int)>,
    sum: SummaryView,
) -> Option<SummaryView> {
    match active {
        Some((sec, sd)) => if sd == line_depth {
            match sec {
                Section::Species => {
                    let c = fill(sum.species_class, assignment_lookup(s, lo, hi, class_key()));
                    let p = fill(sum.portrait, assignment_lookup(s, lo, hi, portrait_key()));
                    if c is Some && p is Some {
                        Some(
                            SummaryView {
                                authority: sum.authority,
                                government: sum.government,
                                origin: sum.origin,
                                species_class: c.unwrap(),
                                portrait: p.unwrap(),
                                civics: sum.civics,
                                ethics: sum.ethics,
                            },
                        )
                    } else {
                        None
                    }
                },
                Section::Civics => match collect(sum.civics, first_quoted_in(s, lo, hi)) {
                    Some(c) => Some(
                        SummaryView {
                            authority: sum.authority,
                            government: sum.government,
                            origin: sum.origin,
                            species_class: sum.species_class,
                            portrait: sum.portrait,
                            civics: c,
                            ethics: sum.ethics,
                        },
                    ),
                    None => None,
                },
            }
        } else {
            Some(sum)
        },
        None => Some(sum),
    }
}

/// Reads the line `s[lo..hi]`: the summary fields it sets, then the brace depth
/// after it, which opens an announced section or closes the current one.
pub open spec fn summary_line(s: Seq<u8>, lo: int, hi: int, st: ScanState) -> Option<ScanState> {
    let (tlo, thi) = trim_bounds(s, lo, hi);
    let d = st.depth;
    let top = if d == 1 {
        top_level_line(s, tlo, thi, st.summary, st.pending)
    } else {
        Some((st.summary, st.pending))
    };
    match top {
        None => None,
        Some((sum1, pend1)) => match section_line(s, tlo, thi, d, st.active, sum1) {
            None => None,
            Some(sum2) => {
                let nd = depth_after(s, lo, hi, d, false, false);
                let opened = pend1 is Some && nd > d;
                let pend2 = if opened {
                    None
                } else {
                    pend1
                };
                let act2 = if opened {
                    Some((pend1.unwrap(), nd))
                } else {
                    st.active
                };
                let act3 = if act2 is Some && nd < act2.unwrap().1 {
                    None
                } else {
                    act2
                };
                Some(ScanState { summary: sum2, depth: nd, pending: pend2, active: act3 })
            },
        },
    }
}

/// The end of the line that starts at `i`: the next line feed, or the end of `s`.
pub open spec fn line_end(s: Seq<u8>, i: int) -> int
    decreases s.len() - i,
{
    if !(0 <= i < s.len()) {
        s.len() as int
    } else if s[i] == LF {
        i
    } else {
        line_end(s, i + 1)
    }
}

pub proof fn lemma_line_end(s: Seq<u8>, i: int)
    requires
        0 <= i <= s.len(),
    ensures
        i <= line_end(s, i) <= s.len(),
        line_end(s, i) < s.len() ==> s[line_end(s, i)] == LF,
    decreases s.len() - i,
{
    if i < s.len() && s[i] != LF {
        lemma_line_end(s, i + 1);
    }
}

/// The summary read from the lines of `s` that start at `ls` or later.
pub open spec fn summary_scan(s: Seq<u8>, ls: int, st: ScanState) -> Option<SummaryView>
    decreases s.len() + 1 - ls,
{
    if !(0 <= ls < s.len()) {
        Some(st.summary)
    } else {
        let le = line_end(s, ls);
        proof {
            lemma_line_end(s, ls);
        }
        match summary_line(s, ls, le, st) {
            None => None,
            Some(st2) => summary_scan(s, le + 1, st2),
        }
    }
}

/// The summary of a design block's text, or `None` when a value on one of the lines
/// it reads cannot be formed (see `Quoted::Broken`).
#[verifier::opaque]
pub open spec fn summary_of(s: Seq<u8>) -> Option<SummaryView> {
    summary_scan(s, 0, ScanState { summary: empty_summary(), depth: 0, pending: None, active: None })
}

/// The design's key: the first `key = "..."` directly inside its block.
pub open spec fn key_scan(s: Seq<u8>, ls: int, depth: int) -> Lookup
    decreases s.len() + 1 - ls,
{
    if !(0 <= ls < s.len()) {
        Lookup::Missing
    } else {
        let le = line_end(s, ls);
        proof {
            lemma_line_end(s, ls);
        }
        let (tlo, thi) = trim_bounds(s, ls, le);
        let here = if depth == 1 {
            assignment_lookup(s, tlo, thi, design_key_key())
        } else {
            Lookup::Missing
        };
        match here {
            Lookup::Missing => key_scan(s, le + 1, depth_after(s, ls, le, depth, false, false)),
            _ => here,
        }
    }
}

#[verifier::opaque]
pub open spec fn key_of(s: Seq<u8>) -> Lookup {
    key_scan(s, 0, 0)
}


pub open spec fn active_view(a: Option<(Section, usize)>) -> Option<(Section, int)> {
    match a {
        Some((sec, d)) => Some((sec, d as int)),
        None => None,
    }
}

fn find_line_end(b: &[u8], ls: usize) -> (r: usize)
    requires
        ls <= b@.len(),
    ensures
        r == line_end(b@, ls as int),
        ls <= r <= b@.len(),
{
    proof {
        lemma_line_end(b@, ls as int);
    }
    let mut p = ls;
    while p < b.len()
        invariant
            ls <= p <= b@.len(),
            line_end(b@, ls as int) == line_end(b@, p as int),
        decreases b@.len() - p,
    {
        if b[p] == LF {
            return p;
        }
        p = p + 1;
    }
    p
}

fn push_text(list: &mut Vec<String>, t: String)
    ensures
        texts(final(list)@) == texts(old(list)@).push(text_bytes(t)),
{
    list.push(t);
    assert(texts(list@) =~= texts(old(list)@).push(text_bytes(t)));
}

/// The fields that a line directly inside the block sets; false when a value on it
/// cannot be formed.
fn top_level_fields(
    raw: &str,
    b: &[u8],
    lo: usize,
    hi: usize,
    summary: &mut EmpireSummary,
    pending: &mut Option<Section>,
) -> (ok: bool)
    requires
        b@ == raw.spec_bytes(),
        lo <= hi <= b@.len(),
    ensures
        ok ==> top_level_line(b@, lo as int, hi as int, old(summary)@, *old(pending)) == Some(
            (final(summary)@, *final(pending)),
        ),
        !ok ==> top_level_line(b@, lo as int, hi as int, old(summary)@, *old(pending)) is None,
{
    if summary.authority.is_none() {
        match assignment_quoted_value(raw, b, lo, hi, "authority".as_bytes()) {
            LookupScan::Missing => {},
            LookupScan::Found(v) => {
                summary.authority = Some(v);
            },
            LookupScan::Broken => {
                return false;
            },
        }
    }
    if summary.government.is_none() {
        match assignment_quoted_value(raw, b, lo, hi, "government".as_bytes()) {
            LookupScan::Missing => {},
            LookupScan::Found(v) => {
                summary.government = Some(v);
            },
            LookupScan::Broken => {
                return false;
            },
        }
    }
    if summary.origin.is_none() {
        match assignment_quoted_value(raw, b, lo, hi, "origin".as_bytes()) {
            LookupScan::Missing => {},
            LookupScan::Found(v) => {
                summary.origin = Some(v);
            },
            LookupScan::Broken => {
                return false;
            },
        }
    }
    match assignment_quoted_value(raw, b, lo, hi, "ethic".as_bytes()) {
        LookupScan::Missing => {},
        LookupScan::Found(v) => {
            push_text(&mut summary.ethics, v);
        },
        LookupScan::Broken => {
            return false;
        },
    }
    if is_block_assignment(b, lo, hi, "species".as_bytes()) {
        *pending = Some(Section::Species);
    }
    if is_block_assignment(b, lo, hi, "civics".as_bytes()) {
        *pending = Some(Section::Civics);
    }
    true
}

/// The fields that a line directly inside the current section sets; false when a
/// value on it cannot be formed.
fn section_fields(
    raw: &str,
    b: &[u8],
    lo: usize,
    hi: usize,
    line_depth: usize,
    active: Option<(Section, usize)>,
    summary: &mut EmpireSummary,
) -> (ok: bool)
    requires
        b@ == raw.spec_bytes(),
        lo <= hi <= b@.len(),
    ensures
        ok ==> section_line(
            b@,
            lo as int,
            hi as int,
            line_depth as int,
            active_view(active),
            old(summary)@,
        ) == Some(final(summary)@),
        !ok ==> section_line(
            b@,
            lo as int,
            hi as int,
            line_depth as int,
            active_view(active),
            old(summary)@,
        ) is None,
{
    match active {
        Some((Section::Species, section_depth)) => {
            if line_depth == section_depth {
                if summary.species_class.is_none() {
                    match assignment_quoted_value(raw, b, lo, hi, "class".as_bytes()) {
                        LookupScan::Missing => {},
                        LookupScan::Found(v) => {
                            summary.species_class = Some(v);
                        },
                        LookupScan::Broken => {
                            return false;
                        },
                    }
                }
                if summary.portrait.is_none() {
                    match assignment_quoted_value(raw, b, lo, hi, "portrait".as_bytes()) {
                        LookupScan::Missing => {},
                        LookupScan::Found(v) => {
                            summary.portrait = Some(v);
                        },
                        LookupScan::Broken => {
                            return false;
                        },
                    }
                }
            }
        },
        Some((Section::Civics, section_depth)) => {
            if line_depth == section_depth {
                match first_quoted(raw, b, lo, hi) {
                    LookupScan::Missing => {},
                    LookupScan::Found(v) => {
                        push_text(&mut summary.civics, v);
                    },
                    LookupScan::Broken => {
                        return false;
                    },
                }
            }
        },
        None => {},
    }
    true
}

pub open spec fn state_view(
    summary: SummaryView,
    depth: usize,
    pending: Option<Section>,
    active: Option<(Section, usize)>,
) -> ScanState {
    ScanState { summary: summary, depth: depth as int, pending: pending, active: active_view(active) }
}

/// Reads the line `b[ls..le]` into the summary and the reader's state; false when a
/// value on it cannot be formed.
fn read_summary_line(
    raw: &str,
    b: &[u8],
    ls: usize,
    le: usize,
    summary: &mut EmpireSummary,
    depth: &mut usize,
    pending: &mut Option<Section>,
    active: &mut Option<(Section, usize)>,
) -> (ok: bool)
    requires
        b@ == raw.spec_bytes(),
        ls <= le <= b@.len(),
        *old(depth) <= ls,
    ensures
        ok ==> summary_line(
            b@,
            ls as int,
            le as int,
            state_view(old(summary)@, *old(depth), *old(pending), *old(active)),
        ) == Some(state_view(final(summary)@, *final(depth), *final(pending), *final(active))),
        ok ==> *final(depth) <= le,
        !ok ==> summary_line(
            b@,
            ls as int,
            le as int,
            state_view(old(summary)@, *old(depth), *old(pending), *old(active)),
        ) is None,
{
    let (tlo, thi) = trim_range(b, ls, le);
    let line_depth = *depth;
    if line_depth == 1 {
        if !top_level_fields(raw, b, tlo, thi, summary, pending) {
            return false;
        }
    }
    if !section_fields(raw, b, tlo, thi, line_depth, *active, summary) {
        return false;
    }
    let next_depth = apply_brace_delta(b, ls, le, line_depth);
    match *pending {
        Some(sec) => {
            if next_depth > line_depth {
                *active = Some((sec, next_depth));
                *pending = None;
            }
        },
        None => {},
    }
    match *active {
        Some((_sec, section_depth)) => {
            if next_depth < section_depth {
                *active = None;
            }
        },
        None => {},
    }
    *depth = next_depth;
    true
}

/// The summary of a design block's text; `None` exactly when `summary_of` is.
pub fn extract_summary(raw: &str) -> (r: Option<EmpireSummary>)
    ensures
        r matches Some(x) ==> summary_of(raw.spec_bytes()) == Some(x@),
        r is None ==> summary_of(raw.spec_bytes()) is None,
{
    let b = raw.as_bytes();
    let ghost s = b@;
    let mut summary = EmpireSummary::empty();
    let mut depth: usize = 0;
    let mut pending: Option<Section> = None;
    let mut active: Option<(Section, usize)> = None;
    let mut ls: usize = 0;
    assert(summary_of(s) == summary_scan(s, 0, state_view(summary@, depth, pending, active))) by {
        reveal(summary_of);
    }
    while ls < b.len()
        invariant
            b@ == s,
            s == raw.spec_bytes(),
            ls <= s.len(),
            depth <= ls,
            summary_of(s) == summary_scan(s, ls as int, state_view(summary@, depth, pending, active)),
        decreases s.len() - ls,
    {
        let ghost st = state_view(summary@, depth, pending, active);
        let le = find_line_end(b, ls);
        if !read_summary_line(raw, b, ls, le, &mut summary, &mut depth, &mut pending, &mut active) {
            return None;
        }
        assert(summary_scan(s, ls as int, st) == summary_scan(
            s,
            le + 1,
            state_view(summary@, depth, pending, active),
        ));
        if le == b.len() {
            return Some(summary);
        }
        ls = le + 1;
    }
    Some(summary)
}

/// The design's key, read from its block's text; `Broken` exactly when `key_of` is.
pub fn summary_key(raw: &str) -> (r: LookupScan)
    ensures
        r@ == key_of(raw.spec_bytes()),
{
    let b = raw.as_bytes();
    let ghost s = b@;
    let mut depth: usize = 0;
    let mut ls: usize = 0;
    assert(key_of(s) == key_scan(s, 0, 0)) by {
        reveal(key_of);
    }
    while ls < b.len()
        invariant
            b@ == s,
            s == raw.spec_bytes(),
            ls <= s.len(),
            depth <= ls,
            key_of(s) == key_scan(s, ls as int, depth as int),
        decreases s.len() - ls,
    {
        let le = find_line_end(b, ls);
        let (tlo, thi) = trim_range(b, ls, le);
        if depth == 1 {
            match assignment_quoted_value(raw, b, tlo, thi, "key".as_bytes()) {
                LookupScan::Missing => {},
                LookupScan::Found(v) => {
                    return LookupScan::Found(v);
                },
                LookupScan::Broken => {
                    return LookupScan::Broken;
                },
            }
        }
        let ghost d0 = depth;
        depth = apply_brace_delta(b, ls, le, depth);
        assert(key_scan(s, ls as int, d0 as int) == key_scan(s, le + 1, depth as int));
        if le == b.len() {
            return LookupScan::Missing;
        }
        ls = le + 1;
    }
    LookupScan::Missing
}

/// The value of the first `key = "..."` on a line directly inside the block (at brace
/// depth 1), reading the lines from `ls`, at brace depth `depth` there.
pub open spec fn first_assignment(s: Seq<u8>, ls: int, depth: int, key: Seq<u8>) -> Lookup
    decreases s.len() + 1 - ls,
{
    if !(0 <= ls < s.len()) {
        Lookup::Missing
    } else {
        let le = line_end(s, ls);
        proof {
            lemma_line_end(s, ls);
        }
        let (tlo, thi) = trim_bounds(s, ls, le);
        let here = if depth == 1 {
            assignment_lookup(s, tlo, thi, key)
        } else {
            Lookup::Missing
        };
        match here {
            Lookup::Missing => first_assignment(
                s,
                le + 1,
                depth_after(s, ls, le, depth, false, false),
                key,
            ),
            _ => here,
        }
    }
}

/// The values of every `key = "..."` on the lines directly inside the block, in
/// order, reading the lines from `ls`, at brace depth `depth` there.
pub open spec fn all_assignments(s: Seq<u8>, ls: int, depth: int, key: Seq<u8>) -> Seq<Seq<u8>>
    decreases s.len() + 1 - ls,
{
    if !(0 <= ls < s.len()) {
        Seq::empty()
    } else {
        let le = line_end(s, ls);
        proof {
            lemma_line_end(s, ls);
        }
        let (tlo, thi) = trim_bounds(s, ls, le);
        let here = if depth == 1 {
            match assignment_lookup(s, tlo, thi, key) {
                Lookup::Found(v) => seq![v],
                _ => Seq::empty(),
            }
        } else {
            Seq::empty()
        };
        here + all_assignments(s, le + 1, depth_after(s, ls, le, depth, false, false), key)
    }
}

/// The value a lookup found, if any.
pub open spec fn found_value(l: Lookup) -> Option<Seq<u8>> {
    match l {
        Lookup::Found(v) => Some(v),
        _ => None,
    }
}

/// A field keeps the value it has, or takes the first one assigned from here on.
pub open spec fn first_or(cur: Option<Seq<u8>>, s: Seq<u8>, ls: int, depth: int, key: Seq<u8>) -> Option<Seq<u8>> {
    if cur is Some {
        cur
    } else {
        found_value(first_assignment(s, ls, depth, key))
    }
}

pub(crate) proof fn lemma_scan_fields(s: Seq<u8>, ls: int, st: ScanState)
    requires
        summary_scan(s, ls, st) is Some,
    ensures
        ({
            let sum = summary_scan(s, ls, st)->Some_0;
            &&& sum.authority == first_or(st.summary.authority, s, ls, st.depth, authority_key())
            &&& sum.government == first_or(st.summary.government, s, ls, st.depth, government_key())
            &&& sum.origin == first_or(st.summary.origin, s, ls, st.depth, origin_key())
            &&& sum.ethics == st.summary.ethics + all_assignments(s, ls, st.depth, ethic_key())
        }),
    decreases s.len() + 1 - ls,
{
    if 0 <= ls < s.len() {
        lemma_line_end(s, ls);
        let le = line_end(s, ls);
        let st2 = summary_line(s, ls, le, st)->Some_0;
        lemma_scan_fields(s, le + 1, st2);
        assert(st2.depth == depth_after(s, ls, le, st.depth, false, false));
        let (tlo, thi) = trim_bounds(s, ls, le);
        if st.depth == 1 {
            let e = assignment_lookup(s, tlo, thi, ethic_key());
            if e is Found {
                assert(st2.summary.ethics == st.summary.ethics.push(e->Found_0));
                assert(st.summary.ethics + (seq![e->Found_0] + all_assignments(
                    s,
                    le + 1,
                    st2.depth,
                    ethic_key(),
                )) =~= st.summary.ethics.push(e->Found_0) + all_assignments(
                    s,
                    le + 1,
                    st2.depth,
                    ethic_key(),
                ));
            } else {
                assert(st2.summary.ethics == st.summary.ethics);
                assert(Seq::<Seq<u8>>::empty() + all_assignments(s, le + 1, st2.depth, ethic_key())
                    =~= all_assignments(s, le + 1, st2.depth, ethic_key()));
            }
        } else {
            assert(Seq::<Seq<u8>>::empty() + all_assignments(s, le + 1, st2.depth, ethic_key())
                =~= all_assignments(s, le + 1, st2.depth, ethic_key()));
        }
    } else {
        assert(st.summary.ethics + Seq::<Seq<u8>>::empty() =~= st.summary.ethics);
    }
}

pub(crate) proof fn lemma_key_scan_first(s: Seq<u8>, ls: int, depth: int)
    ensures
        key_scan(s, ls, depth) == first_assignment(s, ls, depth, design_key_key()),
    decreases s.len() + 1 - ls,
{
    if 0 <= ls < s.len() {
        lemma_line_end(s, ls);
        let le = line_end(s, ls);
        lemma_key_scan_first(s, le + 1, depth_after(s, ls, le, depth, false, false));
    }
}

} // verus!
