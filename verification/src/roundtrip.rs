//! Written files read back as the designs that were written: in the line break
//! their file already uses, or in either line break when the file has no lone
//! carriage return and every design name stays on one line. For any file whose
//! design names stay on one line, the names and written texts come back unless the
//! written text cannot be read at all.
use vstd::prelude::*;

use crate::io_ops::{
    blocks, bom, crlf, formatted, import_all, import_one, lemma_first_match_range, lf, lf_from,
    newline_of, nl_from, normalized_block, raws_of, selected_upto, selection, starts_with_bom,
    ConflictPolicy,
};
use crate::parser::{parse_designs, parse_from, with_designs, DesignView, Parsed};
use crate::scan::{
    block_end, first_offset, assignment_lookup, assignment_value_at, depth_after, find_quote, first_quoted_in, reaches_cut,
    Lookup,
};
use crate::summary::{
    design_key_key, key_of, key_scan, line_end, section_line, summary_line, summary_of,
    summary_scan, top_level_line, ScanState,
};
use crate::laws::{crlf_only, no_cr};
use crate::scan::{
    brace_close, is_blank, lemma_brace_close_range, lemma_unquote_end, scan_step, skip_blanks,
    unquote, Quoted, BACKSLASH, CLOSE_BRACE, CR, EQUALS, LF, OPEN_BRACE, QUOTE,
};
use crate::parser::lemma_skip_blanks;
use crate::text::{space_width_at, space_width_before, trim_bounds, trim_end_at, trim_start_at};

verus! {

/// The line breaks of `s` are all `nl`: CRLF only, or LF without any carriage return.
pub open spec fn breaks_are(s: Seq<u8>, nl: Seq<u8>) -> bool {
    (nl == crlf() && crlf_only(s)) || (nl == lf() && no_cr(s))
}

proof fn lemma_nl_from_suffix(p: Seq<u8>, x: Seq<u8>, j: int, nl: Seq<u8>)
    requires
        0 <= j <= x.len(),
    ensures
        nl_from(p + x, p.len() + j, nl) == nl_from(x, j, nl),
    decreases x.len() - j,
{
    if j < x.len() {
        assert((p + x)[p.len() + j] == x[j]);
        lemma_nl_from_suffix(p, x, j + 1, nl);
    }
}

proof fn lemma_nl_from_cons(b: u8, x: Seq<u8>, nl: Seq<u8>)
    ensures
        nl_from(seq![b] + x, 0, nl) == (if b == LF {
            nl
        } else {
            seq![b]
        }) + nl_from(x, 0, nl),
{
    assert((seq![b] + x)[0] == b);
    lemma_nl_from_suffix(seq![b], x, 0, nl);
}

proof fn lemma_canonical_from(t: Seq<u8>, i: int, nl: Seq<u8>)
    requires
        breaks_are(t, nl),
        0 <= i <= t.len(),
        !(i > 0 && t[i - 1] == CR),
    ensures
        nl_from(lf_from(t, i), 0, nl) == t.subrange(i, t.len() as int),
    decreases t.len() - i,
{
    if i == t.len() {
        assert(lf_from(t, i) =~= Seq::<u8>::empty());
        assert(nl_from(Seq::<u8>::empty(), 0, nl) =~= Seq::<u8>::empty());
        assert(t.subrange(i, t.len() as int) =~= Seq::<u8>::empty());
    } else if t[i] == CR {
        assert(nl == crlf());
        assert(i + 1 < t.len() && t[i + 1] == LF);
        lemma_canonical_from(t, i + 2, nl);
        lemma_nl_from_cons(LF, lf_from(t, i + 2), nl);
        assert(t.subrange(i, t.len() as int) =~= crlf() + t.subrange(i + 2, t.len() as int));
    } else {
        if t[i] == LF && nl == crlf() {
            assert(i > 0 && t[i - 1] == CR);
        }
        lemma_canonical_from(t, i + 1, nl);
        lemma_nl_from_cons(t[i], lf_from(t, i + 1), nl);
        assert(t[i] == LF ==> nl == lf());
        assert(t.subrange(i, t.len() as int) =~= seq![t[i]] + t.subrange(i + 1, t.len() as int));
    }
}

/// Text whose line breaks are all `nl` is left as it is by the line-break
/// normalization.
proof fn lemma_canonical_unchanged(t: Seq<u8>, nl: Seq<u8>)
    requires
        breaks_are(t, nl),
    ensures
        nl_from(lf_from(t, 0), 0, nl) == t,
{
    lemma_canonical_from(t, 0, nl);
    assert(t.subrange(0, t.len() as int) =~= t);
}

/// A design's text that opens with a quote and ends with its closing brace,
/// possibly followed by one line break, trims to the part up to the brace.
proof fn lemma_block_trim(r: Seq<u8>, c: int)
    requires
        0 <= c < r.len(),
        r[0] == QUOTE,
        r[c] == CLOSE_BRACE,
        r.len() == c + 1 || (r.len() == c + 2 && r[c + 1] == LF) || (r.len() == c + 3 && r[c
            + 1] == CR && r[c + 2] == LF),
    ensures
        trim_bounds(r, 0, r.len() as int) == (0int, c + 1),
{
    assert(space_width_at(r, 0, r.len() as int) == 0);
    assert(trim_start_at(r, 0, r.len() as int) == 0);
    assert(space_width_before(r, 0, c + 1) == 0);
    assert(trim_end_at(r, 0, c + 1) == c + 1);
    if r.len() == c + 2 {
        assert(space_width_before(r, 0, c + 2) == 1);
        assert(trim_end_at(r, 0, c + 2) == trim_end_at(r, 0, c + 1));
    } else if r.len() == c + 3 {
        assert(space_width_before(r, 0, c + 2) == 1);
        assert(trim_end_at(r, 0, c + 2) == trim_end_at(r, 0, c + 1));
        assert(space_width_before(r, 0, c + 3) == 1);
        assert(trim_end_at(r, 0, c + 3) == trim_end_at(r, 0, c + 2));
    }
    assert(trim_end_at(r, 0, r.len() as int) == c + 1);
}

/// The written form of such a text is its part up to the closing brace.
proof fn lemma_block_written_as_is(r: Seq<u8>, c: int, nl: Seq<u8>)
    requires
        0 <= c < r.len(),
        r[0] == QUOTE,
        r[c] == CLOSE_BRACE,
        r.len() == c + 1 || (r.len() == c + 2 && r[c + 1] == LF) || (r.len() == c + 3 && r[c
            + 1] == CR && r[c + 2] == LF),
        breaks_are(r.subrange(0, c + 1), nl),
    ensures
        normalized_block(r, nl) == r.subrange(0, c + 1),
{
    lemma_block_trim(r, c);
    lemma_canonical_unchanged(r.subrange(0, c + 1), nl);
}

/// The blocks, read from the front: the first block and its line break, then a
/// blank line and the other blocks.
proof fn lemma_blocks_front(raws: Seq<Seq<u8>>, nl: Seq<u8>)
    requires
        raws.len() > 0,
    ensures
        blocks(raws, nl) == normalized_block(raws[0], nl) + nl + (if raws.len() > 1 {
            nl + blocks(raws.drop_first(), nl)
        } else {
            Seq::<u8>::empty()
        }),
    decreases raws.len(),
{
    let prev = raws.drop_last();
    if raws.len() == 1 {
        assert(prev.len() == 0);
        assert(blocks(prev, nl) =~= Seq::<u8>::empty());
        assert(raws.last() == raws[0]);
        assert(blocks(raws, nl) =~= normalized_block(raws[0], nl) + nl + Seq::<u8>::empty());
    } else {
        lemma_blocks_front(prev, nl);
        assert(prev[0] == raws[0]);
        let tail = raws.drop_first();
        assert(tail.drop_last() =~= prev.drop_first());
        assert(tail.last() == raws.last());
        if prev.len() == 1 {
            assert(prev.drop_first().len() == 0);
            assert(blocks(prev.drop_first(), nl) =~= Seq::<u8>::empty());
            assert(blocks(tail, nl) =~= normalized_block(raws.last(), nl) + nl);
            assert(blocks(raws, nl) =~= normalized_block(raws[0], nl) + nl + (nl + blocks(
                tail,
                nl,
            )));
        } else {
            assert(blocks(tail, nl) == blocks(prev.drop_first(), nl) + nl + normalized_block(
                raws.last(),
                nl,
            ) + nl);
            assert(blocks(raws, nl) =~= normalized_block(raws[0], nl) + nl + (nl + blocks(
                tail,
                nl,
            )));
        }
    }
}


/// Reading a quoted string depends only on its bytes, wherever they stand.
proof fn lemma_unquote_shift(s1: Seq<u8>, i1: int, s2: Seq<u8>, i2: int, v: Seq<u8>, e1: int)
    requires
        0 <= i1,
        0 <= i2,
        unquote(s1, i1, s1.len() as int) == Quoted::Closed(v, e1),
        i1 <= e1 <= s1.len(),
        i2 + (e1 - i1) <= s2.len(),
        s1.subrange(i1, e1) == s2.subrange(i2, i2 + (e1 - i1)),
    ensures
        unquote(s2, i2, s2.len() as int) == Quoted::Closed(v, i2 + (e1 - i1)),
    decreases e1 - i1,
{
    let n = e1 - i1;
    lemma_unquote_end(s1, i1, s1.len() as int);
    assert(i1 < e1);
    assert(s1.subrange(i1, e1)[0] == s1[i1]);
    assert(s2.subrange(i2, i2 + n)[0] == s2[i2]);
    if s1[i1] == QUOTE {
    } else if s1[i1] == BACKSLASH {
        let inner = unquote(s1, i1 + 2, s1.len() as int);
        assert(i1 + 1 < s1.len() && s1[i1 + 1] < 0x80);
        lemma_unquote_end(s1, i1 + 2, s1.len() as int);
        match inner {
            Quoted::Closed(w, e) => {
                assert(e == e1);
                assert(s1.subrange(i1, e1)[1] == s1[i1 + 1]);
                assert(s2.subrange(i2, i2 + n)[1] == s2[i2 + 1]);
                assert(s1.subrange(i1 + 2, e1) =~= s1.subrange(i1, e1).subrange(2, n));
                assert(s2.subrange(i2 + 2, i2 + n) =~= s2.subrange(i2, i2 + n).subrange(2, n));
                lemma_unquote_shift(s1, i1 + 2, s2, i2 + 2, w, e1);
            },
            _ => {},
        }
    } else {
        let inner = unquote(s1, i1 + 1, s1.len() as int);
        lemma_unquote_end(s1, i1 + 1, s1.len() as int);
        match inner {
            Quoted::Closed(w, e) => {
                assert(e == e1);
                assert(s1.subrange(i1 + 1, e1) =~= s1.subrange(i1, e1).subrange(1, n));
                assert(s2.subrange(i2 + 1, i2 + n) =~= s2.subrange(i2, i2 + n).subrange(1, n));
                lemma_unquote_shift(s1, i1 + 1, s2, i2 + 1, w, e1);
            },
            _ => {},
        }
    }
}

/// Skipping blanks depends only on the bytes skipped and the one that stops it.
proof fn lemma_skip_blanks_shift(s1: Seq<u8>, i1: int, s2: Seq<u8>, i2: int, j1: int)
    requires
        0 <= i1 <= j1 < s1.len(),
        0 <= i2,
        j1 == skip_blanks(s1, i1),
        i2 + (j1 - i1) < s2.len(),
        s1.subrange(i1, j1 + 1) == s2.subrange(i2, i2 + (j1 - i1) + 1),
    ensures
        skip_blanks(s2, i2) == i2 + (j1 - i1),
    decreases j1 - i1,
{
    let n = j1 - i1 + 1;
    assert(s1.subrange(i1, j1 + 1)[0] == s1[i1]);
    assert(s2.subrange(i2, i2 + n)[0] == s2[i2]);
    if i1 < j1 {
        if !is_blank(s1[i1]) {
            assert(skip_blanks(s1, i1) == i1);
        }
        assert(is_blank(s1[i1]));
        assert(s1.subrange(i1 + 1, j1 + 1) =~= s1.subrange(i1, j1 + 1).subrange(1, n));
        assert(s2.subrange(i2 + 1, i2 + n) =~= s2.subrange(i2, i2 + n).subrange(1, n));
        lemma_skip_blanks_shift(s1, i1 + 1, s2, i2 + 1, j1);
    } else {
        if is_blank(s1[i1]) {
            crate::parser::lemma_skip_blanks(s1, i1 + 1);
        }
    }
}

/// Finding the closing brace depends only on the bytes up to it.
proof fn lemma_brace_close_shift(
    s1: Seq<u8>,
    i1: int,
    s2: Seq<u8>,
    i2: int,
    c1: int,
    depth: int,
    in_str: bool,
    esc: bool,
)
    requires
        0 <= i1 <= c1 < s1.len(),
        0 <= i2,
        brace_close(s1, i1, depth, in_str, esc) == Some(c1),
        i2 + (c1 - i1) < s2.len(),
        s1.subrange(i1, c1 + 1) == s2.subrange(i2, i2 + (c1 - i1) + 1),
    ensures
        brace_close(s2, i2, depth, in_str, esc) == Some(i2 + (c1 - i1)),
    decreases c1 - i1,
{
    let n = c1 - i1 + 1;
    assert(s1.subrange(i1, c1 + 1)[0] == s1[i1]);
    assert(s2.subrange(i2, i2 + n)[0] == s2[i2]);
    let (d, q, e) = scan_step(s1[i1], depth, in_str, esc);
    if !in_str && s1[i1] == CLOSE_BRACE && d == 0 {
    } else {
        lemma_brace_close_range(s1, i1 + 1, d, q, e);
        assert(s1.subrange(i1 + 1, c1 + 1) =~= s1.subrange(i1, c1 + 1).subrange(1, n));
        assert(s2.subrange(i2 + 1, i2 + n) =~= s2.subrange(i2, i2 + n).subrange(1, n));
        lemma_brace_close_shift(s1, i1 + 1, s2, i2 + 1, c1, d, q, e);
    }
}


/// `s1` and `s2` hold the same bytes below `hi`.
spec fn agree_below(s1: Seq<u8>, s2: Seq<u8>, hi: int) -> bool {
    &&& 0 <= hi <= s1.len()
    &&& hi <= s2.len()
    &&& forall|k: int| 0 <= k < hi ==> #[trigger] s1[k] == s2[k]
}

proof fn lemma_agree_trim(s1: Seq<u8>, s2: Seq<u8>, hi: int, lo: int, h: int)
    requires
        agree_below(s1, s2, hi),
        0 <= lo <= h <= hi,
    ensures
        trim_start_at(s1, lo, h) == trim_start_at(s2, lo, h),
        trim_end_at(s1, lo, h) == trim_end_at(s2, lo, h),
        trim_bounds(s1, lo, h) == trim_bounds(s2, lo, h),
    decreases h - lo,
{
    assert(space_width_at(s1, lo, h) == space_width_at(s2, lo, h));
    assert(space_width_before(s1, lo, h) == space_width_before(s2, lo, h));
    let w = space_width_at(s1, lo, h);
    if w > 0 {
        lemma_agree_trim(s1, s2, hi, lo + w, h);
    }
    lemma_agree_trim_end(s1, s2, hi, lo, h);
    crate::text::lemma_trim_start_range(s1, lo, h);
    lemma_agree_trim_end(s1, s2, hi, trim_start_at(s1, lo, h), h);
}

proof fn lemma_agree_trim_end(s1: Seq<u8>, s2: Seq<u8>, hi: int, lo: int, j: int)
    requires
        agree_below(s1, s2, hi),
        0 <= lo <= j <= hi,
    ensures
        trim_end_at(s1, lo, j) == trim_end_at(s2, lo, j),
    decreases j - lo,
{
    assert(space_width_before(s1, lo, j) == space_width_before(s2, lo, j));
    let w = space_width_before(s1, lo, j);
    if w > 0 {
        lemma_agree_trim_end(s1, s2, hi, lo, j - w);
    }
}

proof fn lemma_agree_unquote(s1: Seq<u8>, s2: Seq<u8>, hi: int, i: int, h: int)
    requires
        agree_below(s1, s2, hi),
        0 <= i,
        h <= hi,
    ensures
        unquote(s1, i, h) == unquote(s2, i, h),
        reaches_cut(s1, i, h) == reaches_cut(s2, i, h),
        find_quote(s1, i, h) == find_quote(s2, i, h),
    decreases h - i,
{
    if i < h {
        lemma_agree_unquote(s1, s2, hi, i + 1, h);
        if i + 2 <= h {
            lemma_agree_unquote(s1, s2, hi, i + 2, h);
        }
    }
}

proof fn lemma_find_quote_range(s: Seq<u8>, i: int, h: int)
    ensures
        find_quote(s, i, h) matches Some(q) ==> i <= q < h && 0 <= q,
    decreases h - i,
{
    if 0 <= i < h && h <= s.len() && s[i] != QUOTE {
        lemma_find_quote_range(s, i + 1, h);
    }
}

proof fn lemma_agree_lookup(s1: Seq<u8>, s2: Seq<u8>, hi: int, lo: int, h: int, key: Seq<u8>)
    requires
        agree_below(s1, s2, hi),
        0 <= lo <= h <= hi,
    ensures
        first_quoted_in(s1, lo, h) == first_quoted_in(s2, lo, h),
        assignment_value_at(s1, lo, h, key) == assignment_value_at(s2, lo, h, key),
        assignment_lookup(s1, lo, h, key) == assignment_lookup(s2, lo, h, key),
{
    lemma_agree_unquote(s1, s2, hi, lo, h);
    lemma_find_quote_range(s1, lo, h);
    match find_quote(s1, lo, h) {
        Some(q) => {
            lemma_agree_unquote(s1, s2, hi, q + 1, h);
        },
        None => {},
    }
    if lo + key.len() <= h {
        assert(s1.subrange(lo, lo + key.len()) =~= s2.subrange(lo, lo + key.len()));
        lemma_agree_trim(s1, s2, hi, lo + key.len(), h);
        crate::text::lemma_trim_start_range(s1, lo + key.len(), h);
        let p = trim_start_at(s1, lo + key.len(), h);
        if p < h {
            lemma_agree_trim(s1, s2, hi, p + 1, h);
            crate::text::lemma_trim_start_range(s1, p + 1, h);
            let v = trim_start_at(s1, p + 1, h);
            lemma_agree_unquote(s1, s2, hi, v, h);
            lemma_find_quote_range(s1, v, h);
            match find_quote(s1, v, h) {
                Some(q) => {
                    lemma_agree_unquote(s1, s2, hi, q + 1, h);
                },
                None => {},
            }
        }
    }
}

proof fn lemma_agree_depth(
    s1: Seq<u8>,
    s2: Seq<u8>,
    hi: int,
    i: int,
    h: int,
    depth: int,
    in_str: bool,
    esc: bool,
)
    requires
        agree_below(s1, s2, hi),
        0 <= i,
        h <= hi,
    ensures
        depth_after(s1, i, h, depth, in_str, esc) == depth_after(s2, i, h, depth, in_str, esc),
    decreases h - i,
{
    if i < h {
        let (d, q, e) = scan_step(s1[i], depth, in_str, esc);
        lemma_agree_depth(s1, s2, hi, i + 1, h, d, q, e);
    }
}

/// A line is read the same from any text that holds the same bytes up to its end.
proof fn lemma_agree_line(s1: Seq<u8>, s2: Seq<u8>, hi: int, lo: int, h: int, st: ScanState)
    requires
        agree_below(s1, s2, hi),
        0 <= lo <= h <= hi,
    ensures
        summary_line(s1, lo, h, st) == summary_line(s2, lo, h, st),
        trim_bounds(s1, lo, h) == trim_bounds(s2, lo, h),
        depth_after(s1, lo, h, st.depth, false, false) == depth_after(
            s2,
            lo,
            h,
            st.depth,
            false,
            false,
        ),
{
    lemma_agree_trim(s1, s2, hi, lo, h);
    let (a, z) = trim_bounds(s1, lo, h);
    crate::text::lemma_trim_start_range(s1, lo, h);
    crate::text::lemma_trim_end_range(s1, a, h);
    lemma_agree_lookup(s1, s2, hi, a, z, crate::summary::authority_key());
    lemma_agree_lookup(s1, s2, hi, a, z, crate::summary::government_key());
    lemma_agree_lookup(s1, s2, hi, a, z, crate::summary::origin_key());
    lemma_agree_lookup(s1, s2, hi, a, z, crate::summary::ethic_key());
    lemma_agree_lookup(s1, s2, hi, a, z, crate::summary::species_key());
    lemma_agree_lookup(s1, s2, hi, a, z, crate::summary::civics_key());
    lemma_agree_lookup(s1, s2, hi, a, z, crate::summary::class_key());
    lemma_agree_lookup(s1, s2, hi, a, z, crate::summary::portrait_key());
    lemma_agree_depth(s1, s2, hi, lo, h, st.depth, false, false);
}


proof fn lemma_trim_start_before_brace(s: Seq<u8>, i: int, hi: int)
    requires
        0 <= i <= hi - 1,
        hi < s.len(),
        s[hi - 1] == CLOSE_BRACE,
    ensures
        trim_start_at(s, i, hi + 1) == trim_start_at(s, i, hi),
        trim_start_at(s, i, hi) <= hi - 1,
    decreases hi - i,
{
    let w = space_width_at(s, i, hi);
    assert(space_width_at(s, i, hi + 1) == w);
    if w > 0 {
        assert(i + w <= hi - 1);
        lemma_trim_start_before_brace(s, i + w, hi);
    }
}

proof fn lemma_depth_extra_cr(s: Seq<u8>, i: int, hi: int, depth: int, in_str: bool, esc: bool)
    requires
        0 <= i <= hi < s.len(),
        s[hi] == CR,
    ensures
        depth_after(s, i, hi + 1, depth, in_str, esc) == depth_after(s, i, hi, depth, in_str, esc),
    decreases hi - i,
{
    if i < hi {
        let (d, q, e) = scan_step(s[i], depth, in_str, esc);
        lemma_depth_extra_cr(s, i + 1, hi, d, q, e);
    } else {
        let (d, q, e) = scan_step(s[i], depth, in_str, esc);
        assert(d == depth);
        assert(depth_after(s, i + 1, hi + 1, d, q, e) == d);
    }
}

/// A carriage return after a line's closing brace changes nothing in how the line
/// is read.
proof fn lemma_line_extra_cr(s: Seq<u8>, lo: int, hi: int, st: ScanState)
    requires
        0 <= lo <= hi - 1,
        hi < s.len(),
        s[hi] == CR,
        s[hi - 1] == CLOSE_BRACE,
    ensures
        summary_line(s, lo, hi + 1, st) == summary_line(s, lo, hi, st),
        trim_bounds(s, lo, hi + 1) == trim_bounds(s, lo, hi),
        depth_after(s, lo, hi + 1, st.depth, false, false) == depth_after(
            s,
            lo,
            hi,
            st.depth,
            false,
            false,
        ),
{
    lemma_trim_start_before_brace(s, lo, hi);
    crate::text::lemma_trim_start_range(s, lo, hi);
    let a = trim_start_at(s, lo, hi);
    assert(space_width_before(s, a, hi + 1) == 1);
    assert(trim_end_at(s, a, hi + 1) == trim_end_at(s, a, hi));
    lemma_depth_extra_cr(s, lo, hi, st.depth, false, false);
}

proof fn lemma_line_end_extended(t: Seq<u8>, t2: Seq<u8>, ls: int)
    requires
        agree_below(t, t2, t.len() as int),
        t2.len() > t.len(),
        0 <= ls <= t.len(),
    ensures
        line_end(t, ls) < t.len() ==> line_end(t2, ls) == line_end(t, ls),
        line_end(t, ls) == t.len() ==> line_end(t2, ls) == line_end(t2, t.len() as int),
    decreases t.len() - ls,
{
    crate::summary::lemma_line_end(t, ls);
    if ls < t.len() && t[ls] != LF {
        lemma_line_end_extended(t, t2, ls + 1);
    }
}

proof fn lemma_scan_with_break(t: Seq<u8>, nl: Seq<u8>, ls: int, st: ScanState)
    requires
        t.len() > 0,
        t.last() == CLOSE_BRACE,
        nl == lf() || nl == crlf(),
        0 <= ls < t.len(),
    ensures
        summary_scan(t + nl, ls, st) == summary_scan(t, ls, st),
    decreases t.len() - ls,
{
    let t2 = t + nl;
    let n = t.len() as int;
    assert(agree_below(t, t2, n));
    crate::summary::lemma_line_end(t, ls);
    lemma_line_end_extended(t, t2, ls);
    let le = line_end(t, ls);
    lemma_agree_line(t, t2, n, ls, le, st);
    if le < n {
        assert(t[le] == LF);
        assert(le + 1 < n);
        assert(line_end(t2, ls) == le);
        match summary_line(t, ls, le, st) {
            Some(st2) => {
                lemma_scan_with_break(t, nl, le + 1, st2);
                assert(summary_scan(t2, ls, st) == summary_scan(t2, le + 1, st2));
                assert(summary_scan(t, ls, st) == summary_scan(t, le + 1, st2));
            },
            None => {
                assert(summary_scan(t2, ls, st) is None);
                assert(summary_scan(t, ls, st) is None);
            },
        }
    } else {
        let e2 = if nl == lf() {
            n
        } else {
            n + 1
        };
        if nl == lf() {
            assert(t2[n] == LF);
            assert(line_end(t2, n) == n);
        } else {
            assert(t2[n] == CR);
            assert(t2[n + 1] == LF);
            assert(line_end(t2, n + 1) == n + 1);
            assert(line_end(t2, n) == n + 1);
            assert(t2[n - 1] == CLOSE_BRACE);
            lemma_line_extra_cr(t2, ls, n, st);
        }
        assert(line_end(t2, ls) == e2);
        assert(summary_line(t2, ls, e2, st) == summary_line(t, ls, n, st));
        assert(e2 + 1 >= t2.len());
        match summary_line(t, ls, n, st) {
            Some(st2) => {
                assert(summary_scan(t2, ls, st) == summary_scan(t2, e2 + 1, st2));
                assert(summary_scan(t2, e2 + 1, st2) == Some(st2.summary));
                assert(summary_scan(t, ls, st) == summary_scan(t, n + 1, st2));
            },
            None => {},
        }
    }
}

proof fn lemma_key_with_break(t: Seq<u8>, nl: Seq<u8>, ls: int, depth: int)
    requires
        t.len() > 0,
        t.last() == CLOSE_BRACE,
        nl == lf() || nl == crlf(),
        0 <= ls < t.len(),
    ensures
        key_scan(t + nl, ls, depth) == key_scan(t, ls, depth),
    decreases t.len() - ls,
{
    let t2 = t + nl;
    let n = t.len() as int;
    assert(agree_below(t, t2, n));
    crate::summary::lemma_line_end(t, ls);
    lemma_line_end_extended(t, t2, ls);
    let le = line_end(t, ls);
    let st = ScanState {
        summary: crate::summary::empty_summary(),
        depth: depth,
        pending: None,
        active: None,
    };
    lemma_agree_line(t, t2, n, ls, le, st);
    let (a, z) = trim_bounds(t, ls, le);
    crate::text::lemma_trim_start_range(t, ls, le);
    crate::text::lemma_trim_end_range(t, a, le);
    lemma_agree_lookup(t, t2, n, a, z, design_key_key());
    if le < n {
        assert(t[le] == LF);
        assert(le + 1 < n);
        assert(line_end(t2, ls) == le);
        let d2 = depth_after(t, ls, le, depth, false, false);
        lemma_key_with_break(t, nl, le + 1, d2);
        assert(key_scan(t2, ls, depth) == key_scan(t, ls, depth));
    } else {
        let e2 = if nl == lf() {
            n
        } else {
            n + 1
        };
        if nl == lf() {
            assert(t2[n] == LF);
            assert(line_end(t2, n) == n);
        } else {
            assert(t2[n] == CR);
            assert(t2[n + 1] == LF);
            assert(line_end(t2, n + 1) == n + 1);
            assert(line_end(t2, n) == n + 1);
            assert(t2[n - 1] == CLOSE_BRACE);
            lemma_line_extra_cr(t2, ls, n, st);
        }
        assert(line_end(t2, ls) == e2);
        assert(trim_bounds(t2, ls, e2) == (a, z));
        assert(key_scan(t2, e2 + 1, depth_after(t2, ls, e2, depth, false, false))
            == Lookup::Missing);
        assert(key_scan(t, n + 1, depth_after(t, ls, n, depth, false, false)) == Lookup::Missing);
        assert(key_scan(t2, ls, depth) == key_scan(t, ls, depth));
    }
}

/// A block's text followed by one line break reads as the same summary and key.
proof fn lemma_block_with_break(t: Seq<u8>, nl: Seq<u8>)
    requires
        t.len() > 0,
        t.last() == CLOSE_BRACE,
        nl == lf() || nl == crlf(),
    ensures
        summary_of(t + nl) == summary_of(t),
        key_of(t + nl) == key_of(t),
{
    reveal(summary_of);
    reveal(key_of);
    lemma_scan_with_break(
        t,
        nl,
        0,
        ScanState {
            summary: crate::summary::empty_summary(),
            depth: 0,
            pending: None,
            active: None,
        },
    );
    lemma_key_with_break(t, nl, 0, 0);
}

/// The name of a design block and the offset of its closing brace.
struct BlockHead {
    name: Seq<u8>,
    close: int,
}

/// The head of the design block that opens at `i`, when its name, `=`, `{` and
/// matching `}` are all there.
spec fn block_head(s: Seq<u8>, i: int) -> Option<BlockHead> {
    if !(0 <= i < s.len()) || s[i] != QUOTE {
        None
    } else {
        match unquote(s, i + 1, s.len() as int) {
            Quoted::Closed(name, after) => {
                let p2 = skip_blanks(s, after);
                if !(p2 < s.len() && s[p2] == EQUALS) {
                    None
                } else {
                    let p3 = skip_blanks(s, p2 + 1);
                    if !(p3 < s.len() && s[p3] == OPEN_BRACE) {
                        None
                    } else {
                        match brace_close(s, p3, 0, false, false) {
                            Some(c) => Some(BlockHead { name: name, close: c }),
                            None => None,
                        }
                    }
                }
            },
            _ => None,
        }
    }
}

proof fn lemma_block_head_range(s: Seq<u8>, i: int)
    requires
        block_head(s, i) is Some,
    ensures
        0 <= i < block_head(s, i)->Some_0.close < s.len(),
        s[i] == QUOTE,
        s[block_head(s, i)->Some_0.close] == CLOSE_BRACE,
{
    lemma_unquote_end(s, i + 1, s.len() as int);
    let after = unquote(s, i + 1, s.len() as int)->Closed_1;
    lemma_skip_blanks(s, after);
    let p2 = skip_blanks(s, after);
    lemma_skip_blanks(s, p2 + 1);
    let p3 = skip_blanks(s, p2 + 1);
    lemma_brace_close_range(s, p3, 0, false, false);
}

/// The head of a block is read the same from any text that holds the same bytes
/// from its opening quote to its closing brace.
proof fn lemma_block_head_shift(s1: Seq<u8>, i1: int, s2: Seq<u8>, i2: int)
    requires
        block_head(s1, i1) is Some,
        0 <= i2,
        i2 + (block_head(s1, i1)->Some_0.close - i1) < s2.len(),
        forall|j: int|
            0 <= j <= block_head(s1, i1)->Some_0.close - i1 ==> #[trigger] s2[i2 + j] == s1[i1 + j],
    ensures
        block_head(s2, i2) == Some(
            BlockHead {
                name: block_head(s1, i1)->Some_0.name,
                close: i2 + (block_head(s1, i1)->Some_0.close - i1),
            },
        ),
{
    let c = block_head(s1, i1)->Some_0.close;
    let name = block_head(s1, i1)->Some_0.name;
    let d = i2 - i1;
    lemma_block_head_range(s1, i1);
    lemma_unquote_end(s1, i1 + 1, s1.len() as int);
    let after = unquote(s1, i1 + 1, s1.len() as int)->Closed_1;
    lemma_skip_blanks(s1, after);
    let p2 = skip_blanks(s1, after);
    lemma_skip_blanks(s1, p2 + 1);
    let p3 = skip_blanks(s1, p2 + 1);
    lemma_brace_close_range(s1, p3, 0, false, false);
    assert(s2[i2 + 0] == s1[i1 + 0]);
    assert(s1.subrange(i1 + 1, after) =~= s2.subrange(i2 + 1, i2 + 1 + (after - (i1 + 1)))) by {
        assert forall|k: int| 0 <= k < after - (i1 + 1) implies #[trigger] s1.subrange(i1 + 1, after)[k]
            == s2.subrange(i2 + 1, i2 + 1 + (after - (i1 + 1)))[k] by {
            assert(s2[i2 + (k + 1)] == s1[i1 + (k + 1)]);
        }
    }
    lemma_unquote_shift(s1, i1 + 1, s2, i2 + 1, name, after);
    assert(s1.subrange(after, p2 + 1) =~= s2.subrange(after + d, after + d + (p2 - after) + 1))
        by {
        assert forall|k: int| 0 <= k < p2 + 1 - after implies #[trigger] s1.subrange(after, p2 + 1)[k]
            == s2.subrange(after + d, after + d + (p2 - after) + 1)[k] by {
            assert(s2[i2 + (after - i1 + k)] == s1[i1 + (after - i1 + k)]);
        }
    }
    lemma_skip_blanks_shift(s1, after, s2, after + d, p2);
    assert(s2[i2 + (p2 - i1)] == s1[i1 + (p2 - i1)]);
    assert(s1.subrange(p2 + 1, p3 + 1) =~= s2.subrange(p2 + 1 + d, p2 + 1 + d + (p3 - (p2 + 1))
        + 1)) by {
        assert forall|k: int| 0 <= k < p3 - p2 implies #[trigger] s1.subrange(p2 + 1, p3 + 1)[k]
            == s2.subrange(p2 + 1 + d, p2 + 1 + d + (p3 - (p2 + 1)) + 1)[k] by {
            assert(s2[i2 + (p2 + 1 - i1 + k)] == s1[i1 + (p2 + 1 - i1 + k)]);
        }
    }
    lemma_skip_blanks_shift(s1, p2 + 1, s2, p2 + 1 + d, p3);
    assert(s2[i2 + (p3 - i1)] == s1[i1 + (p3 - i1)]);
    assert(s1.subrange(p3, c + 1) =~= s2.subrange(p3 + d, p3 + d + (c - p3) + 1)) by {
        assert forall|k: int| 0 <= k < c + 1 - p3 implies #[trigger] s1.subrange(p3, c + 1)[k]
            == s2.subrange(p3 + d, p3 + d + (c - p3) + 1)[k] by {
            assert(s2[i2 + (p3 - i1 + k)] == s1[i1 + (p3 - i1 + k)]);
        }
    }
    lemma_brace_close_shift(s1, p3, s2, p3 + d, c, 0, false, false);
}

/// The written form of a design, read on its own, is one block that takes all of
/// it, ends with the closing brace, and has the design's name, key and summary.
#[verifier::opaque]
pub open spec fn reads_alone(d: DesignView, nl: Seq<u8>) -> bool {
    let t = normalized_block(d.raw, nl);
    &&& t.len() > 0
    &&& t.last() == CLOSE_BRACE
    &&& parse_from(t, 0) matches Parsed::Designs(x) && x.len() == 1 && x[0].raw == t
        && x[0].name == d.name && x[0].key == d.key && x[0].summary == d.summary
}

/// `d2` is `d` as read back from a file that `d` was written to with line break `nl`:
/// the same name, key and summary, and as text the written form and one line break.
pub open spec fn read_back_as(d: DesignView, d2: DesignView, nl: Seq<u8>) -> bool {
    &&& d2.name == d.name
    &&& d2.key == d.key
    &&& d2.summary == d.summary
    &&& d2.raw == normalized_block(d.raw, nl) + nl
}

/// `ds2`, one for one, is `ds` as read back.
pub open spec fn all_read_back(ds: Seq<DesignView>, ds2: Seq<DesignView>, nl: Seq<u8>) -> bool {
    &&& ds2.len() == ds.len()
    &&& forall|i: int| 0 <= i < ds.len() ==> read_back_as(ds[i], #[trigger] ds2[i], nl)
}

proof fn lemma_skip_blank_run(f: Seq<u8>, i: int, k: int)
    requires
        0 <= i,
        0 <= k,
        i + k <= f.len(),
        forall|j: int| i <= j < i + k ==> is_blank(#[trigger] f[j]),
    ensures
        skip_blanks(f, i) == skip_blanks(f, i + k),
    decreases k,
{
    if k > 0 {
        lemma_skip_blank_run(f, i + 1, k - 1);
    }
}

/// The design of the block at `i` whose head is `h`: its text runs to the line break
/// after the closing brace.
spec fn design_at(s: Seq<u8>, i: int, h: BlockHead) -> Option<DesignView> {
    let end = block_end(s, h.close + 1);
    let raw = s.subrange(i, end);
    match (summary_of(raw), key_of(raw)) {
        (Some(sum), Lookup::Missing) => Some(
            DesignView { name: h.name, key: None, start: i, end: end, raw: raw, summary: sum },
        ),
        (Some(sum), Lookup::Found(k)) => Some(
            DesignView { name: h.name, key: Some(k), start: i, end: end, raw: raw, summary: sum },
        ),
        _ => None,
    }
}

/// Parsing at a block with a complete head takes its design, then goes on after
/// the blanks that follow it.
proof fn lemma_parse_at_head(s: Seq<u8>, i: int)
    requires
        block_head(s, i) is Some,
    ensures
        parse_from(s, i) == (match design_at(s, i, block_head(s, i)->Some_0) {
            Some(d) => with_designs(seq![d], parse_from(s, skip_blanks(s, d.end))),
            None => Parsed::Broken,
        }),
{
}

/// A design that reads alone, written at `q` and followed by `nl`, is read back
/// there as itself.
#[verifier::spinoff_prover]
proof fn lemma_one_block_read_back(d: DesignView, nl: Seq<u8>, f: Seq<u8>, q: int)
    requires
        nl == lf() || nl == crlf(),
        reads_alone(d, nl),
        0 <= q,
        q + normalized_block(d.raw, nl).len() + nl.len() <= f.len(),
        f.subrange(q, q + normalized_block(d.raw, nl).len() + nl.len()) == normalized_block(
            d.raw,
            nl,
        ) + nl,
    ensures
        ({
            let t = normalized_block(d.raw, nl);
            let end2 = q + t.len() + nl.len();
            parse_from(f, q) == with_designs(
                seq![
                    DesignView {
                        name: d.name,
                        key: d.key,
                        start: q,
                        end: end2,
                        raw: t + nl,
                        summary: d.summary,
                    },
                ],
                parse_from(f, skip_blanks(f, end2)),
            )
        }),
{
    reveal(reads_alone);
    let t = normalized_block(d.raw, nl);
    let u = t + nl;
    let x = parse_from(t, 0)->Designs_0;
    assert(block_head(t, 0) is Some);
    lemma_block_head_range(t, 0);
    let h = block_head(t, 0)->Some_0;
    let c = h.close;
    lemma_parse_at_head(t, 0);
    assert(design_at(t, 0, h) is Some);
    let e = block_end(t, c + 1);
    assert(x[0] == design_at(t, 0, h)->Some_0);
    assert(x[0].raw == t.subrange(0, e));
    assert(e == t.len());
    assert(c + 1 == t.len());
    let end2 = q + t.len() + nl.len();
    assert forall|j: int| 0 <= j <= c implies #[trigger] f[q + j] == t[0 + j] by {
        assert(f.subrange(q, end2)[j] == u[j]);
    }
    lemma_block_head_shift(t, 0, f, q);
    let h2 = block_head(f, q)->Some_0;
    assert(h2.close == q + c);
    assert(f.subrange(q, end2)[t.len() as int] == u[t.len() as int]);
    if nl == crlf() {
        assert(f.subrange(q, end2)[(t.len() + 1) as int] == u[(t.len() + 1) as int]);
    }
    assert(block_end(f, q + c + 1) == end2);
    lemma_block_with_break(t, nl);
    lemma_parse_at_head(f, q);
}

/// Where the written blocks of designs stand in a text that holds them after some
/// blanks: the first one, then the blanks and blocks of the others.
#[verifier::spinoff_prover]
proof fn lemma_blocks_layout(ds: Seq<DesignView>, nl: Seq<u8>, f: Seq<u8>, q0: int, w: Seq<u8>)
    requires
        nl == lf() || nl == crlf(),
        ds.len() > 0,
        0 <= q0 <= f.len(),
        w == Seq::<u8>::empty() || w == nl,
        f.subrange(q0, f.len() as int) == w + blocks(raws_of(ds), nl),
    ensures
        ({
            let t = normalized_block(ds[0].raw, nl);
            let q = q0 + w.len();
            let end2 = q + t.len() + nl.len();
            let w2 = if ds.len() > 1 {
                nl
            } else {
                Seq::<u8>::empty()
            };
            &&& end2 <= f.len()
            &&& skip_blanks(f, q0) == skip_blanks(f, q)
            &&& f.subrange(q, end2) == t + nl
            &&& f.subrange(end2, f.len() as int) == w2 + blocks(raws_of(ds.drop_first()), nl)
        }),
{
    let g = f.subrange(q0, f.len() as int);
    assert(g.len() == f.len() - q0);
    assert(g.len() == w.len() + blocks(raws_of(ds), nl).len());
    assert forall|j: int| q0 <= j < q0 + w.len() implies is_blank(#[trigger] f[j]) by {
        assert(f[j] == g[j - q0]);
        assert(g[j - q0] == w[j - q0]);
    }
    lemma_skip_blank_run(f, q0, w.len() as int);
    let q = q0 + w.len();
    let raws = raws_of(ds);
    let d = ds[0];
    let rest = ds.drop_first();
    let t = normalized_block(d.raw, nl);
    lemma_blocks_front(raws, nl);
    assert(raws[0] == d.raw);
    assert(raws.drop_first() =~= raws_of(rest));
    let w2 = if ds.len() > 1 {
        nl
    } else {
        Seq::<u8>::empty()
    };
    if ds.len() == 1 {
        assert(raws_of(rest).len() == 0);
        assert(blocks(raws_of(rest), nl) =~= Seq::<u8>::empty());
    }
    let tail = w2 + blocks(raws_of(rest), nl);
    assert(g =~= w + (t + nl) + tail);
    let end2 = q + t.len() + nl.len();
    assert(f.subrange(q, end2) =~= t + nl) by {
        assert forall|k: int| 0 <= k < t.len() + nl.len() implies #[trigger] f.subrange(
            q,
            end2,
        )[k] == (t + nl)[k] by {
            assert(f[q + k] == g[w.len() + k]);
        }
    }
    assert(f.subrange(end2, f.len() as int) =~= tail) by {
        assert forall|k: int| 0 <= k < tail.len() implies #[trigger] f.subrange(
            end2,
            f.len() as int,
        )[k] == tail[k] by {
            assert(f[end2 + k] == g[w.len() + t.len() + nl.len() + k]);
        }
    }
}

/// A text that holds, after some blanks, the written blocks of designs that each
/// read alone reads as those designs.
#[verifier::spinoff_prover]
proof fn lemma_blocks_read_back(ds: Seq<DesignView>, nl: Seq<u8>, f: Seq<u8>, q0: int, w: Seq<u8>)
    requires
        nl == lf() || nl == crlf(),
        forall|i: int| 0 <= i < ds.len() ==> reads_alone(#[trigger] ds[i], nl),
        0 <= q0 <= f.len(),
        w == Seq::<u8>::empty() || w == nl,
        f.subrange(q0, f.len() as int) == w + blocks(raws_of(ds), nl),
    ensures
        parse_from(f, skip_blanks(f, q0)) matches Parsed::Designs(ds2) && all_read_back(
            ds,
            ds2,
            nl,
        ),
    decreases ds.len(),
{
    if ds.len() == 0 {
        let g = f.subrange(q0, f.len() as int);
        assert(raws_of(ds).len() == 0);
        assert(blocks(raws_of(ds), nl) =~= Seq::<u8>::empty());
        assert(g =~= w);
        assert forall|j: int| q0 <= j < q0 + w.len() implies is_blank(#[trigger] f[j]) by {
            assert(f[j] == g[j - q0]);
        }
        lemma_skip_blank_run(f, q0, w.len() as int);
        assert(parse_from(f, f.len() as int) == Parsed::Designs(Seq::<DesignView>::empty()));
        assert(all_read_back(ds, Seq::<DesignView>::empty(), nl));
    } else {
        let d = ds[0];
        let rest = ds.drop_first();
        let t = normalized_block(d.raw, nl);
        let q = q0 + w.len();
        let end2 = q + t.len() + nl.len();
        let w2 = if ds.len() > 1 {
            nl
        } else {
            Seq::<u8>::empty()
        };
        lemma_blocks_layout(ds, nl, f, q0, w);
        assert(reads_alone(d, nl));
        assert(t.len() > 0 && t[0] == QUOTE) by {
            reveal(reads_alone);
        }
        assert(f[q] == f.subrange(q, end2)[0]);
        assert(skip_blanks(f, q) == q);
        lemma_one_block_read_back(d, nl, f, q);
        assert forall|i: int| 0 <= i < rest.len() implies reads_alone(#[trigger] rest[i], nl) by {
            assert(rest[i] == ds[i + 1]);
        }
        lemma_blocks_read_back(rest, nl, f, end2, w2);
        let ds2r = parse_from(f, skip_blanks(f, end2))->Designs_0;
        let d2 = DesignView {
            name: d.name,
            key: d.key,
            start: q,
            end: end2,
            raw: t + nl,
            summary: d.summary,
        };
        let ds2 = seq![d2] + ds2r;
        assert(parse_from(f, q) == Parsed::Designs(ds2));
        assert forall|i: int| 0 <= i < ds.len() implies read_back_as(ds[i], #[trigger] ds2[i], nl)
            by {
            if i > 0 {
                assert(ds2[i] == ds2r[i - 1]);
                assert(ds[i] == rest[i - 1]);
            }
        }
    }
}

/// A slice of a text whose line breaks are all `nl` has only `nl` line breaks too,
/// when it neither starts with a line feed nor ends with a carriage return.
proof fn lemma_breaks_slice(s: Seq<u8>, nl: Seq<u8>, a: int, b: int)
    requires
        breaks_are(s, nl),
        0 <= a < b <= s.len(),
        s[a] != LF,
        s[b - 1] != CR,
    ensures
        breaks_are(s.subrange(a, b), nl),
{
    let t = s.subrange(a, b);
    if nl == crlf() {
        assert(crlf_only(s));
        assert forall|i: int| 0 <= i < t.len() implies (#[trigger] t[i] == LF ==> i > 0 && t[i - 1]
            == CR) && (t[i] == CR ==> i + 1 < t.len() && t[i + 1] == LF) by {
            assert(t[i] == s[a + i]);
            if t[i] == LF {
                assert(s[a + i - 1] == CR);
                assert(t[i - 1] == s[a + i - 1]);
            }
            if t[i] == CR {
                assert(s[a + i + 1] == LF);
                assert(t[i + 1] == s[a + i + 1]);
            }
        }
        assert(crlf_only(t));
    } else {
        assert(no_cr(s));
        assert forall|i: int| 0 <= i < t.len() implies #[trigger] t[i] != CR by {
            assert(t[i] == s[a + i]);
        }
        assert(no_cr(t));
    }
}

/// The text of a block read from a text whose line breaks are all `nl` is its part
/// up to the closing brace, possibly followed by `nl`, and is written as that part.
proof fn lemma_parsed_block_text(s: Seq<u8>, pos: int, nl: Seq<u8>)
    requires
        breaks_are(s, nl),
        block_head(s, pos) is Some,
    ensures
        ({
            let c = block_head(s, pos)->Some_0.close;
            let raw = s.subrange(pos, block_end(s, c + 1));
            let t = s.subrange(pos, c + 1);
            &&& raw == t || raw == t + nl
            &&& normalized_block(raw, nl) == t
        }),
{
    lemma_block_head_range(s, pos);
    let c = block_head(s, pos)->Some_0.close;
    let end = block_end(s, c + 1);
    let raw = s.subrange(pos, end);
    let t = s.subrange(pos, c + 1);
    lemma_breaks_slice(s, nl, pos, c + 1);
    if end == c + 3 {
        assert(s[c + 1] == CR);
        if nl == lf() {
            assert(no_cr(s));
        }
        assert(raw =~= t + nl);
    } else if end == c + 2 {
        assert(s[c + 1] == LF);
        if nl == crlf() {
            assert(crlf_only(s));
            assert(s[c + 1 - 1] == CR);
        }
        assert(raw =~= t + nl);
    } else {
        assert(raw =~= t);
    }
    assert(raw.subrange(0, c - pos + 1) =~= t);
    lemma_block_written_as_is(raw, c - pos, nl);
}

/// A text that is one block up to its closing brace reads as that one design.
proof fn lemma_lone_block(t: Seq<u8>)
    requires
        block_head(t, 0) is Some,
        block_head(t, 0)->Some_0.close == t.len() - 1,
        design_at(t, 0, block_head(t, 0)->Some_0) is Some,
    ensures
        parse_from(t, 0) == Parsed::Designs(seq![design_at(t, 0, block_head(t, 0)->Some_0)->Some_0]),
        design_at(t, 0, block_head(t, 0)->Some_0)->Some_0.raw == t,
{
    lemma_parse_at_head(t, 0);
    assert(block_end(t, t.len() as int) == t.len());
    assert(t.subrange(0, t.len() as int) =~= t);
    assert(skip_blanks(t, t.len() as int) == t.len());
    assert(parse_from(t, t.len() as int) == Parsed::Designs(Seq::<DesignView>::empty()));
    assert(seq![design_at(t, 0, block_head(t, 0)->Some_0)->Some_0] + Seq::<DesignView>::empty()
        =~= seq![design_at(t, 0, block_head(t, 0)->Some_0)->Some_0]);
}

/// The block read at `pos` from a text whose line breaks are all `nl`, taken up to
/// its closing brace, is its written form; on its own it has the same head, summary
/// and key.
#[verifier::spinoff_prover]
proof fn lemma_parsed_block_facts(s: Seq<u8>, pos: int, nl: Seq<u8>)
    requires
        breaks_are(s, nl),
        block_head(s, pos) is Some,
    ensures
        ({
            let h = block_head(s, pos)->Some_0;
            let raw = s.subrange(pos, block_end(s, h.close + 1));
            let t = s.subrange(pos, h.close + 1);
            &&& 0 <= pos < h.close < s.len()
            &&& normalized_block(raw, nl) == t
            &&& t.len() > 0 && t.last() == CLOSE_BRACE
            &&& block_head(t, 0) == Some(BlockHead { name: h.name, close: t.len() - 1 })
            &&& summary_of(raw) == summary_of(t)
            &&& key_of(raw) == key_of(t)
        }),
{
    lemma_block_head_range(s, pos);
    let h = block_head(s, pos)->Some_0;
    let c = h.close;
    let t = s.subrange(pos, c + 1);
    lemma_parsed_block_text(s, pos, nl);
    assert forall|j: int| 0 <= j <= c - pos implies #[trigger] t[0 + j] == s[pos + j] by {}
    lemma_block_head_shift(s, pos, t, 0);
    lemma_block_with_break(t, nl);
}

/// The first design read at `pos` from a text whose line breaks are all `nl` reads
/// alone in its written form.
#[verifier::spinoff_prover]
proof fn lemma_parsed_block_reads_alone(s: Seq<u8>, pos: int, nl: Seq<u8>)
    requires
        breaks_are(s, nl),
        block_head(s, pos) is Some,
        design_at(s, pos, block_head(s, pos)->Some_0) is Some,
    ensures
        reads_alone(design_at(s, pos, block_head(s, pos)->Some_0)->Some_0, nl),
{
    let h = block_head(s, pos)->Some_0;
    let d = design_at(s, pos, h)->Some_0;
    let t = s.subrange(pos, h.close + 1);
    lemma_parsed_block_facts(s, pos, nl);
    let h0 = block_head(t, 0)->Some_0;
    assert(block_end(t, t.len() as int) == t.len());
    assert(t.subrange(0, t.len() as int) =~= t);
    assert(design_at(t, 0, h0) is Some);
    lemma_lone_block(t);
    reveal(reads_alone);
}

/// Each design read from a text whose line breaks are all `nl` reads alone in its
/// written form.
proof fn lemma_parsed_read_alone(s: Seq<u8>, pos: int, nl: Seq<u8>)
    requires
        breaks_are(s, nl),
        0 <= pos,
        parse_from(s, pos) is Designs,
    ensures
        forall|i: int|
            0 <= i < parse_from(s, pos)->Designs_0.len() ==> reads_alone(
                #[trigger] parse_from(s, pos)->Designs_0[i],
                nl,
            ),
    decreases s.len() - pos,
{
    let ds = parse_from(s, pos)->Designs_0;
    if pos < s.len() {
        assert(block_head(s, pos) is Some);
        lemma_block_head_range(s, pos);
        let h = block_head(s, pos)->Some_0;
        lemma_parse_at_head(s, pos);
        let d = design_at(s, pos, h)->Some_0;
        let end = block_end(s, h.close + 1);
        let next = skip_blanks(s, end);
        lemma_skip_blanks(s, end);
        let rest = parse_from(s, next)->Designs_0;
        assert(ds == seq![d] + rest);
        lemma_parsed_block_reads_alone(s, pos, nl);
        lemma_parsed_read_alone(s, next, nl);
        assert forall|i: int| 0 <= i < ds.len() implies reads_alone(#[trigger] ds[i], nl) by {
            if i > 0 {
                assert(ds[i] == rest[i - 1]);
            }
        }
    }
}

/// Texts whose written forms are equal, one for one, are written as the same blocks.
proof fn lemma_blocks_same(a: Seq<Seq<u8>>, b: Seq<Seq<u8>>, nl: Seq<u8>)
    requires
        a.len() == b.len(),
        forall|i: int|
            0 <= i < a.len() ==> normalized_block(#[trigger] a[i], nl) == normalized_block(
                b[i],
                nl,
            ),
    ensures
        blocks(a, nl) == blocks(b, nl),
    decreases a.len(),
{
    if a.len() > 0 {
        assert(normalized_block(a[a.len() - 1], nl) == normalized_block(b[b.len() - 1], nl));
        lemma_blocks_same(a.drop_last(), b.drop_last(), nl);
    }
}

/// The written form of a design opens with a quote and ends with a closing brace.
spec fn written_block(d: DesignView, nl: Seq<u8>) -> bool {
    let t = normalized_block(d.raw, nl);
    t.len() > 0 && t[0] == QUOTE && t.last() == CLOSE_BRACE
}

/// `ds2`, one for one, has the names of `ds`, and as texts their written forms each
/// followed by `nl`.
pub open spec fn names_read_back(ds: Seq<DesignView>, ds2: Seq<DesignView>, nl: Seq<u8>) -> bool {
    &&& ds2.len() == ds.len()
    &&& forall|i: int|
        0 <= i < ds.len() ==> #[trigger] ds2[i].name == ds[i].name && ds2[i].raw
            == normalized_block(ds[i].raw, nl) + nl
}

/// Designs read back from their written forms are written as those same forms again.
proof fn lemma_rewritten_same_raw(ds: Seq<DesignView>, ds2: Seq<DesignView>, nl: Seq<u8>)
    requires
        nl == lf() || nl == crlf(),
        forall|i: int| 0 <= i < ds.len() ==> written_block(#[trigger] ds[i], nl),
        names_read_back(ds, ds2, nl),
    ensures
        forall|b: bool| #[trigger] formatted(raws_of(ds2), nl, b) == formatted(raws_of(ds), nl, b),
{
    assert forall|i: int| 0 <= i < ds.len() implies normalized_block(
        #[trigger] raws_of(ds2)[i],
        nl,
    ) == normalized_block(raws_of(ds)[i], nl) by {
        let t = normalized_block(ds[i].raw, nl);
        assert(written_block(ds[i], nl));
        assert(ds2[i].name == ds[i].name);
        assert(ds2[i].raw == t + nl);
        crate::laws::lemma_normalized_breaks(ds[i].raw);
        assert((t + nl).subrange(0, t.len() as int) =~= t);
        lemma_block_written_as_is(t + nl, t.len() - 1, nl);
    }
    lemma_blocks_same(raws_of(ds2), raws_of(ds), nl);
}

/// A design read back from its written form is written as that same form again.
proof fn lemma_rewritten_same(ds: Seq<DesignView>, ds2: Seq<DesignView>, nl: Seq<u8>)
    requires
        nl == lf() || nl == crlf(),
        forall|i: int| 0 <= i < ds.len() ==> reads_alone(#[trigger] ds[i], nl),
        all_read_back(ds, ds2, nl),
    ensures
        forall|b: bool| #[trigger] formatted(raws_of(ds2), nl, b) == formatted(raws_of(ds), nl, b),
{
    assert forall|i: int| 0 <= i < ds.len() implies written_block(#[trigger] ds[i], nl) by {
        assert(reads_alone(ds[i], nl));
        reveal(reads_alone);
    }
    assert forall|i: int| 0 <= i < ds.len() implies #[trigger] ds2[i].name == ds[i].name
        && ds2[i].raw == normalized_block(ds[i].raw, nl) + nl by {
        assert(read_back_as(ds[i], ds2[i], nl));
    }
    lemma_rewritten_same_raw(ds, ds2, nl);
}

/// Designs that each read alone, written as a file with line break `nl`, read back
/// as themselves.
proof fn lemma_designs_read_back(ds: Seq<DesignView>, nl: Seq<u8>, with_bom: bool)
    requires
        nl == lf() || nl == crlf(),
        forall|i: int| 0 <= i < ds.len() ==> reads_alone(#[trigger] ds[i], nl),
    ensures
        parse_designs(formatted(raws_of(ds), nl, with_bom)) matches Parsed::Designs(ds2)
            && all_read_back(ds, ds2, nl) && formatted(raws_of(ds2), nl, with_bom) == formatted(
            raws_of(ds),
            nl,
            with_bom,
        ),
{
    lemma_designs_parse_back(ds, nl, with_bom);
    let ds2 = parse_designs(formatted(raws_of(ds), nl, with_bom))->Designs_0;
    lemma_rewritten_same(ds, ds2, nl);
    assert(formatted(raws_of(ds2), nl, with_bom) == formatted(raws_of(ds), nl, with_bom));
}

/// Designs that each read alone, written as a file with line break `nl`, parse as
/// themselves.
proof fn lemma_designs_parse_back(ds: Seq<DesignView>, nl: Seq<u8>, with_bom: bool)
    requires
        nl == lf() || nl == crlf(),
        forall|i: int| 0 <= i < ds.len() ==> reads_alone(#[trigger] ds[i], nl),
    ensures
        parse_designs(formatted(raws_of(ds), nl, with_bom)) matches Parsed::Designs(ds2)
            && all_read_back(ds, ds2, nl),
{
    let raws = raws_of(ds);
    let f = formatted(raws, nl, with_bom);
    let b = blocks(raws, nl);
    if with_bom {
        assert(f =~= bom() + b);
        assert(f[0] == 0xEF && f[1] == 0xBB && f[2] == 0xBF);
        assert(f.subrange(3, f.len() as int) =~= Seq::<u8>::empty() + b);
        lemma_blocks_read_back(ds, nl, f, 3, Seq::<u8>::empty());
    } else {
        assert(f =~= b);
        if ds.len() > 0 {
            lemma_blocks_front(raws, nl);
            assert(raws[0] == ds[0].raw);
            let t = normalized_block(ds[0].raw, nl);
            assert(reads_alone(ds[0], nl));
            assert(t.len() > 0 && t[0] == QUOTE) by {
                reveal(reads_alone);
            }
            assert(f[0] == t[0]);
        } else {
            assert(raws.len() == 0);
            assert(b =~= Seq::<u8>::empty());
        }
        assert(first_offset(f) == skip_blanks(f, 0));
        assert(f.subrange(0, f.len() as int) =~= Seq::<u8>::empty() + b);
        lemma_blocks_read_back(ds, nl, f, 0, Seq::<u8>::empty());
    }
}

/// A file whose line breaks are all `nl`, read and written back with `nl`, with or
/// without a byte order mark, reads as the same designs: one for one, with the same
/// names, keys and summaries, each text now its written form and one line break;
/// writing what was read back gives the same file again.
pub proof fn law_written_file_reads_back(s: Seq<u8>, nl: Seq<u8>, with_bom: bool)
    requires
        breaks_are(s, nl),
        parse_designs(s) is Designs,
    ensures
        parse_designs(formatted(raws_of(parse_designs(s)->Designs_0), nl, with_bom)) matches Parsed::Designs(ds2)
            && all_read_back(parse_designs(s)->Designs_0, ds2, nl) && formatted(
            raws_of(ds2),
            nl,
            with_bom,
        ) == formatted(raws_of(parse_designs(s)->Designs_0), nl, with_bom),
{
    lemma_skip_blanks(s, 0);
    if s.len() >= 3 {
        lemma_skip_blanks(s, 3);
    }
    lemma_parsed_read_alone(s, first_offset(s), nl);
    lemma_designs_read_back(parse_designs(s)->Designs_0, nl, with_bom);
}

/// Every design of a selection is one of the designs it selects from, so what holds
/// of each of those holds of each selected one.
proof fn lemma_selection_keeps(
    es: Seq<DesignView>,
    sel: Set<usize>,
    n: int,
    p: spec_fn(DesignView) -> bool,
)
    requires
        n <= es.len(),
        forall|i: int| 0 <= i < es.len() ==> #[trigger] p(es[i]),
    ensures
        forall|k: int|
            0 <= k < selected_upto(es, sel, n).len() ==> #[trigger] p(
                selected_upto(es, sel, n)[k],
            ),
    decreases n,
{
    if n > 0 {
        lemma_selection_keeps(es, sel, n - 1, p);
        let prev = selected_upto(es, sel, n - 1);
        if sel.contains((n - 1) as usize) {
            let cur = prev.push(es[n - 1]);
            assert forall|k: int| 0 <= k < cur.len() implies #[trigger] p(cur[k]) by {
                if k < prev.len() {
                    assert(cur[k] == prev[k]);
                }
            }
        }
    }
}

/// Every design an import leaves in the target is one it had or one it took in, so
/// what holds of each of those holds of each design of the result.
proof fn lemma_import_keeps(
    targets: Seq<DesignView>,
    incoming: Seq<DesignView>,
    policy: ConflictPolicy,
    p: spec_fn(DesignView) -> bool,
)
    requires
        forall|i: int| 0 <= i < targets.len() ==> #[trigger] p(targets[i]),
        forall|i: int| 0 <= i < incoming.len() ==> #[trigger] p(incoming[i]),
    ensures
        forall|k: int|
            0 <= k < import_all(targets, incoming, policy).designs.len() ==> #[trigger] p(
                import_all(targets, incoming, policy).designs[k],
            ),
    decreases incoming.len(),
{
    if incoming.len() > 0 {
        let before = incoming.drop_last();
        assert forall|i: int| 0 <= i < before.len() implies #[trigger] p(before[i]) by {
            assert(before[i] == incoming[i]);
        }
        lemma_import_keeps(targets, before, policy, p);
        let st = import_all(targets, before, policy);
        let d = incoming.last();
        assert(p(d));
        lemma_first_match_range(st.designs, d, 0);
        let after = import_one(st, d, policy).designs;
        assert forall|k: int| 0 <= k < after.len() implies #[trigger] p(after[k]) by {
            if k < st.designs.len() && after[k] != d {
                assert(after[k] == st.designs[k]);
            }
        }
    }
}

proof fn lemma_selection_reads_alone(es: Seq<DesignView>, sel: Set<usize>, nl: Seq<u8>)
    requires
        forall|i: int| 0 <= i < es.len() ==> reads_alone(#[trigger] es[i], nl),
    ensures
        forall|k: int|
            0 <= k < selection(es, sel).len() ==> reads_alone(#[trigger] selection(es, sel)[k], nl),
{
    let p = |d: DesignView| reads_alone(d, nl);
    assert forall|i: int| 0 <= i < es.len() implies #[trigger] p(es[i]) by {}
    lemma_selection_keeps(es, sel, es.len() as int, p);
    assert forall|k: int| 0 <= k < selection(es, sel).len() implies reads_alone(
        #[trigger] selection(es, sel)[k],
        nl,
    ) by {
        assert(p(selection(es, sel)[k]));
    }
}

proof fn lemma_import_reads_alone(
    targets: Seq<DesignView>,
    incoming: Seq<DesignView>,
    policy: ConflictPolicy,
    nl: Seq<u8>,
)
    requires
        forall|i: int| 0 <= i < targets.len() ==> reads_alone(#[trigger] targets[i], nl),
        forall|i: int| 0 <= i < incoming.len() ==> reads_alone(#[trigger] incoming[i], nl),
    ensures
        forall|k: int|
            0 <= k < import_all(targets, incoming, policy).designs.len() ==> reads_alone(
                #[trigger] import_all(targets, incoming, policy).designs[k],
                nl,
            ),
{
    let p = |d: DesignView| reads_alone(d, nl);
    assert forall|i: int| 0 <= i < targets.len() implies #[trigger] p(targets[i]) by {}
    assert forall|i: int| 0 <= i < incoming.len() implies #[trigger] p(incoming[i]) by {}
    lemma_import_keeps(targets, incoming, policy, p);
    let ds = import_all(targets, incoming, policy).designs;
    assert forall|k: int| 0 <= k < ds.len() implies reads_alone(#[trigger] ds[k], nl) by {
        assert(p(ds[k]));
    }
}

/// Exporting designs read from a file whose line breaks are all CRLF gives a bundle
/// that reads back as the selected designs, so such an export is never refused for
/// a parse error; exporting what was read back gives the same bundle again.
pub proof fn law_export_reads_back(s: Seq<u8>, sel: Set<usize>)
    requires
        crlf_only(s),
        parse_designs(s) is Designs,
    ensures
        ({
            let chosen = selection(parse_designs(s)->Designs_0, sel);
            parse_designs(formatted(raws_of(chosen), crlf(), false)) matches Parsed::Designs(ds2)
                && all_read_back(chosen, ds2, crlf()) && formatted(raws_of(ds2), crlf(), false)
                == formatted(raws_of(chosen), crlf(), false)
        }),
{
    let es = parse_designs(s)->Designs_0;
    lemma_skip_blanks(s, 0);
    if s.len() >= 3 {
        lemma_skip_blanks(s, 3);
    }
    lemma_parsed_read_alone(s, first_offset(s), crlf());
    lemma_selection_reads_alone(es, sel, crlf());
    lemma_designs_read_back(selection(es, sel), crlf(), false);
}

/// Importing designs selected from a source file into a target file, when both use
/// the target's line break throughout, writes a file that reads back as the designs
/// the import settled on, so the check before the target is replaced always passes;
/// writing what was read back gives the same file again.
pub proof fn law_import_reads_back(
    target: Seq<u8>,
    source: Seq<u8>,
    sel: Set<usize>,
    policy: ConflictPolicy,
)
    requires
        breaks_are(target, newline_of(target)),
        breaks_are(source, newline_of(target)),
        parse_designs(target) is Designs,
        parse_designs(source) is Designs,
    ensures
        ({
            let o = import_all(
                parse_designs(target)->Designs_0,
                selection(parse_designs(source)->Designs_0, sel),
                policy,
            );
            let nl = newline_of(target);
            parse_designs(formatted(raws_of(o.designs), nl, starts_with_bom(target))) matches Parsed::Designs(ds2)
                && all_read_back(o.designs, ds2, nl) && formatted(
                raws_of(ds2),
                nl,
                starts_with_bom(target),
            ) == formatted(raws_of(o.designs), nl, starts_with_bom(target))
        }),
{
    let nl = newline_of(target);
    let ts = parse_designs(target)->Designs_0;
    let es = parse_designs(source)->Designs_0;
    lemma_skip_blanks(target, 0);
    lemma_skip_blanks(source, 0);
    if target.len() >= 3 {
        lemma_skip_blanks(target, 3);
    }
    if source.len() >= 3 {
        lemma_skip_blanks(source, 3);
    }
    lemma_parsed_read_alone(target, first_offset(target), nl);
    lemma_parsed_read_alone(source, first_offset(source), nl);
    lemma_selection_reads_alone(es, sel, nl);
    let chosen = selection(es, sel);
    lemma_import_reads_alone(ts, chosen, policy, nl);
    lemma_designs_read_back(import_all(ts, chosen, policy).designs, nl, starts_with_bom(target));
}

/// `s2` holds, from `b`, the bytes that `s1` holds from `a`, up to `a + n`.
spec fn same_run(s1: Seq<u8>, a: int, s2: Seq<u8>, b: int, n: int) -> bool {
    &&& 0 <= a
    &&& 0 <= b
    &&& 0 <= n
    &&& a + n <= s1.len()
    &&& b + n <= s2.len()
    &&& forall|k: int| 0 <= k < n ==> #[trigger] s1[a + k] == s2[b + k]
}

proof fn lemma_run_at(s1: Seq<u8>, a: int, s2: Seq<u8>, b: int, n: int, i: int)
    requires
        same_run(s1, a, s2, b, n),
        a <= i < a + n,
    ensures
        s2[i + (b - a)] == s1[i],
{
    assert(s1[a + (i - a)] == s2[b + (i - a)]);
}

/// Whitespace is read the same from the same bytes wherever they stand.
#[verifier::spinoff_prover]
proof fn lemma_run_trim(s1: Seq<u8>, a: int, s2: Seq<u8>, b: int, n: int, i: int, h: int)
    requires
        same_run(s1, a, s2, b, n),
        a <= i <= h <= a + n,
    ensures
        trim_start_at(s2, i + (b - a), h + (b - a)) == trim_start_at(s1, i, h) + (b - a),
        trim_end_at(s2, i + (b - a), h + (b - a)) == trim_end_at(s1, i, h) + (b - a),
    decreases h - i,
{
    let d = b - a;
    if i < h {
        lemma_run_at(s1, a, s2, b, n, i);
        lemma_run_at(s1, a, s2, b, n, h - 1);
        if i + 1 < h {
            lemma_run_at(s1, a, s2, b, n, i + 1);
            lemma_run_at(s1, a, s2, b, n, h - 2);
        }
        if i + 2 < h {
            lemma_run_at(s1, a, s2, b, n, i + 2);
            lemma_run_at(s1, a, s2, b, n, h - 3);
        }
    }
    assert(space_width_at(s2, i + d, h + d) == space_width_at(s1, i, h));
    assert(space_width_before(s2, i + d, h + d) == space_width_before(s1, i, h));
    let w = space_width_at(s1, i, h);
    if w > 0 {
        lemma_run_trim(s1, a, s2, b, n, i + w, h);
    }
    let v = space_width_before(s1, i, h);
    if v > 0 {
        lemma_run_trim(s1, a, s2, b, n, i, h - v);
    }
}

#[verifier::spinoff_prover]
proof fn lemma_run_unquote(s1: Seq<u8>, a: int, s2: Seq<u8>, b: int, n: int, i: int, h: int)
    requires
        same_run(s1, a, s2, b, n),
        a <= i,
        h <= a + n,
    ensures
        unquote(s2, i + (b - a), h + (b - a)) == (match unquote(s1, i, h) {
            Quoted::Closed(v, e) => Quoted::Closed(v, e + (b - a)),
            q => q,
        }),
        reaches_cut(s2, i + (b - a), h + (b - a)) == reaches_cut(s1, i, h),
        find_quote(s2, i + (b - a), h + (b - a)) == (match find_quote(s1, i, h) {
            Some(q) => Some(q + (b - a)),
            None => None,
        }),
    decreases h - i,
{
    if i < h {
        lemma_run_at(s1, a, s2, b, n, i);
        if i + 1 < h {
            lemma_run_at(s1, a, s2, b, n, i + 1);
        }
        lemma_run_unquote(s1, a, s2, b, n, i + 1, h);
        if i + 2 <= h {
            lemma_run_unquote(s1, a, s2, b, n, i + 2, h);
        }
    }
}

#[verifier::spinoff_prover]
proof fn lemma_run_lookup(
    s1: Seq<u8>,
    a: int,
    s2: Seq<u8>,
    b: int,
    n: int,
    lo: int,
    h: int,
    key: Seq<u8>,
)
    requires
        same_run(s1, a, s2, b, n),
        a <= lo <= h <= a + n,
    ensures
        first_quoted_in(s2, lo + (b - a), h + (b - a)) == first_quoted_in(s1, lo, h),
        assignment_value_at(s2, lo + (b - a), h + (b - a), key) == (match assignment_value_at(
            s1,
            lo,
            h,
            key,
        ) {
            Some(v) => Some(v + (b - a)),
            None => None,
        }),
        assignment_lookup(s2, lo + (b - a), h + (b - a), key) == assignment_lookup(s1, lo, h, key),
{
    let d = b - a;
    lemma_run_unquote(s1, a, s2, b, n, lo, h);
    lemma_find_quote_range(s1, lo, h);
    match find_quote(s1, lo, h) {
        Some(q) => {
            lemma_run_unquote(s1, a, s2, b, n, q + 1, h);
        },
        None => {},
    }
    if lo + key.len() <= h {
        assert(s1.subrange(lo, lo + key.len()) =~= s2.subrange(lo + d, lo + d + key.len())) by {
            assert forall|k: int| 0 <= k < key.len() implies #[trigger] s1.subrange(
                lo,
                lo + key.len(),
            )[k] == s2.subrange(lo + d, lo + d + key.len())[k] by {
                lemma_run_at(s1, a, s2, b, n, lo + k);
            }
        }
        lemma_run_trim(s1, a, s2, b, n, lo + key.len(), h);
        crate::text::lemma_trim_start_range(s1, lo + key.len(), h);
        let p = trim_start_at(s1, lo + key.len(), h);
        if p < h {
            lemma_run_at(s1, a, s2, b, n, p);
            lemma_run_trim(s1, a, s2, b, n, p + 1, h);
            crate::text::lemma_trim_start_range(s1, p + 1, h);
            let v = trim_start_at(s1, p + 1, h);
            lemma_run_unquote(s1, a, s2, b, n, v, h);
            lemma_find_quote_range(s1, v, h);
            match find_quote(s1, v, h) {
                Some(q) => {
                    lemma_run_unquote(s1, a, s2, b, n, q + 1, h);
                },
                None => {},
            }
        }
    } else {
        assert(!(lo + d + key.len() <= h + d));
    }
}

proof fn lemma_run_depth(
    s1: Seq<u8>,
    a: int,
    s2: Seq<u8>,
    b: int,
    n: int,
    i: int,
    h: int,
    depth: int,
    in_str: bool,
    esc: bool,
)
    requires
        same_run(s1, a, s2, b, n),
        a <= i,
        h <= a + n,
    ensures
        depth_after(s2, i + (b - a), h + (b - a), depth, in_str, esc) == depth_after(
            s1,
            i,
            h,
            depth,
            in_str,
            esc,
        ),
    decreases h - i,
{
    if i < h {
        lemma_run_at(s1, a, s2, b, n, i);
        let (d, q, e) = scan_step(s1[i], depth, in_str, esc);
        lemma_run_depth(s1, a, s2, b, n, i + 1, h, d, q, e);
    }
}

/// A line is read the same from the same bytes wherever they stand.
#[verifier::spinoff_prover]
#[verifier::rlimit(30)]
proof fn lemma_run_line(s1: Seq<u8>, a: int, s2: Seq<u8>, b: int, n: int, st: ScanState)
    requires
        same_run(s1, a, s2, b, n),
    ensures
        summary_line(s2, b, b + n, st) == summary_line(s1, a, a + n, st),
        depth_after(s2, b, b + n, st.depth, false, false) == depth_after(
            s1,
            a,
            a + n,
            st.depth,
            false,
            false,
        ),
        ({
            let (x1, y1) = trim_bounds(s1, a, a + n);
            let (x2, y2) = trim_bounds(s2, b, b + n);
            &&& x2 == x1 + (b - a)
            &&& y2 == y1 + (b - a)
            &&& assignment_lookup(s2, x2, y2, design_key_key()) == assignment_lookup(
                s1,
                x1,
                y1,
                design_key_key(),
            )
        }),
{
    let h = a + n;
    lemma_run_trim(s1, a, s2, b, n, a, h);
    crate::text::lemma_trim_start_range(s1, a, h);
    let x = trim_start_at(s1, a, h);
    lemma_run_trim(s1, a, s2, b, n, x, h);
    crate::text::lemma_trim_end_range(s1, x, h);
    let y = trim_end_at(s1, x, h);
    lemma_run_lookup(s1, a, s2, b, n, x, y, crate::summary::authority_key());
    lemma_run_lookup(s1, a, s2, b, n, x, y, crate::summary::government_key());
    lemma_run_lookup(s1, a, s2, b, n, x, y, crate::summary::origin_key());
    lemma_run_lookup(s1, a, s2, b, n, x, y, crate::summary::ethic_key());
    lemma_run_lookup(s1, a, s2, b, n, x, y, crate::summary::species_key());
    lemma_run_lookup(s1, a, s2, b, n, x, y, crate::summary::civics_key());
    lemma_run_lookup(s1, a, s2, b, n, x, y, crate::summary::class_key());
    lemma_run_lookup(s1, a, s2, b, n, x, y, crate::summary::portrait_key());
    lemma_run_lookup(s1, a, s2, b, n, x, y, design_key_key());
    lemma_run_depth(s1, a, s2, b, n, a, h, st.depth, false, false);
}

proof fn lemma_sub_run(s1: Seq<u8>, a: int, s2: Seq<u8>, b: int, n: int, a2: int, n2: int)
    requires
        same_run(s1, a, s2, b, n),
        a <= a2,
        0 <= n2,
        a2 + n2 <= a + n,
    ensures
        same_run(s1, a2, s2, a2 + (b - a), n2),
{
    assert forall|k: int| 0 <= k < n2 implies #[trigger] s1[a2 + k] == s2[a2 + (b - a) + k] by {
        lemma_run_at(s1, a, s2, b, n, a2 + k);
    }
}

/// `s2` from `b` on is `s1` from `a` on.
spec fn same_tail(s1: Seq<u8>, a: int, s2: Seq<u8>, b: int) -> bool {
    &&& s1.len() - a == s2.len() - b
    &&& same_run(s1, a, s2, b, s1.len() - a)
}

proof fn lemma_tail_line_end(s1: Seq<u8>, a: int, s2: Seq<u8>, b: int, i: int)
    requires
        same_tail(s1, a, s2, b),
        a <= i <= s1.len(),
    ensures
        line_end(s2, i + (b - a)) == line_end(s1, i) + (b - a),
    decreases s1.len() - i,
{
    if i < s1.len() {
        lemma_run_at(s1, a, s2, b, s1.len() - a, i);
        lemma_tail_line_end(s1, a, s2, b, i + 1);
    }
}

/// The summary and the key read from the lines that start at `i` depend only on the
/// bytes from `i` on.
#[verifier::spinoff_prover]
proof fn lemma_tail_scan(s1: Seq<u8>, a: int, s2: Seq<u8>, b: int, i: int, st: ScanState)
    requires
        same_tail(s1, a, s2, b),
        a <= i,
    ensures
        summary_scan(s2, i + (b - a), st) == summary_scan(s1, i, st),
        key_scan(s2, i + (b - a), st.depth) == key_scan(s1, i, st.depth),
    decreases s1.len() + 1 - i,
{
    let d = b - a;
    if i < s1.len() {
        lemma_tail_line_end(s1, a, s2, b, i);
        crate::summary::lemma_line_end(s1, i);
        let le = line_end(s1, i);
        lemma_sub_run(s1, a, s2, b, s1.len() - a, i, le - i);
        lemma_run_line(s1, i, s2, i + d, le - i, st);
        match summary_line(s1, i, le, st) {
            Some(st2) => {
                lemma_tail_scan(s1, a, s2, b, le + 1, st2);
            },
            None => {},
        }
        let st3 = ScanState {
            summary: st.summary,
            depth: depth_after(s1, i, le, st.depth, false, false),
            pending: st.pending,
            active: st.active,
        };
        lemma_tail_scan(s1, a, s2, b, le + 1, st3);
    }
}

/// Skipping blanks depends only on the bytes from where it starts.
proof fn lemma_tail_skip(s1: Seq<u8>, a: int, s2: Seq<u8>, b: int, i: int)
    requires
        same_tail(s1, a, s2, b),
        a <= i,
    ensures
        skip_blanks(s2, i + (b - a)) == skip_blanks(s1, i) + (b - a),
    decreases s1.len() - i,
{
    if i < s1.len() {
        lemma_run_at(s1, a, s2, b, s1.len() - a, i);
        lemma_tail_skip(s1, a, s2, b, i + 1);
    }
}

/// Finding the closing brace depends only on the bytes from where it starts.
proof fn lemma_tail_brace(
    s1: Seq<u8>,
    a: int,
    s2: Seq<u8>,
    b: int,
    i: int,
    depth: int,
    in_str: bool,
    esc: bool,
)
    requires
        same_tail(s1, a, s2, b),
        a <= i,
    ensures
        brace_close(s2, i + (b - a), depth, in_str, esc) == (match brace_close(
            s1,
            i,
            depth,
            in_str,
            esc,
        ) {
            Some(c) => Some(c + (b - a)),
            None => None,
        }),
    decreases s1.len() - i,
{
    if i < s1.len() {
        lemma_run_at(s1, a, s2, b, s1.len() - a, i);
        let (d, q, e) = scan_step(s1[i], depth, in_str, esc);
        lemma_tail_brace(s1, a, s2, b, i + 1, d, q, e);
    }
}

/// Turning line breaks into LF depends only on the bytes from where it starts.
proof fn lemma_tail_lf(s1: Seq<u8>, a: int, s2: Seq<u8>, b: int, i: int)
    requires
        same_tail(s1, a, s2, b),
        a <= i,
    ensures
        lf_from(s2, i + (b - a)) == lf_from(s1, i),
    decreases s1.len() - i,
{
    if i < s1.len() {
        lemma_run_at(s1, a, s2, b, s1.len() - a, i);
        if i + 1 < s1.len() {
            lemma_run_at(s1, a, s2, b, s1.len() - a, i + 1);
        }
        lemma_tail_lf(s1, a, s2, b, i + 1);
        if i + 2 <= s1.len() {
            lemma_tail_lf(s1, a, s2, b, i + 2);
        }
    }
}

proof fn lemma_trim_extra_cr(s: Seq<u8>, i: int, hi: int)
    requires
        0 <= i <= hi < s.len(),
        s[hi] == CR,
    ensures
        trim_start_at(s, i, hi) < hi ==> trim_start_at(s, i, hi + 1) == trim_start_at(s, i, hi),
        trim_start_at(s, i, hi) >= hi ==> trim_start_at(s, i, hi + 1) == hi + 1,
        i <= trim_start_at(s, i, hi) <= hi,
    decreases hi - i,
{
    crate::text::lemma_trim_start_range(s, i, hi);
    if i < hi {
        assert(space_width_at(s, i, hi + 1) == space_width_at(s, i, hi));
        let w = space_width_at(s, i, hi);
        if w > 0 {
            lemma_trim_extra_cr(s, i + w, hi);
        }
    } else {
        assert(space_width_at(s, hi, hi + 1) == 1);
        assert(space_width_at(s, hi + 1, hi + 1) == 0);
        assert(trim_start_at(s, hi + 1, hi + 1) == hi + 1);
        assert(trim_start_at(s, hi, hi + 1) == hi + 1);
        assert(space_width_at(s, hi, hi) == 0);
        assert(trim_start_at(s, hi, hi) == hi);
    }
}

/// A carriage return at the end of a line changes nothing in how the line is read.
#[verifier::spinoff_prover]
#[verifier::rlimit(30)]
proof fn lemma_line_cr(s: Seq<u8>, lo: int, hi: int, st: ScanState)
    requires
        0 <= lo <= hi < s.len(),
        s[hi] == CR,
    ensures
        summary_line(s, lo, hi + 1, st) == summary_line(s, lo, hi, st),
        depth_after(s, lo, hi + 1, st.depth, false, false) == depth_after(
            s,
            lo,
            hi,
            st.depth,
            false,
            false,
        ),
        ({
            let (x1, y1) = trim_bounds(s, lo, hi + 1);
            let (x2, y2) = trim_bounds(s, lo, hi);
            assignment_lookup(s, x1, y1, design_key_key()) == assignment_lookup(
                s,
                x2,
                y2,
                design_key_key(),
            )
        }),
{
    lemma_trim_extra_cr(s, lo, hi);
    lemma_depth_extra_cr(s, lo, hi, st.depth, false, false);
    let x = trim_start_at(s, lo, hi);
    if x < hi {
        assert(space_width_before(s, x, hi + 1) == 1);
        assert(trim_end_at(s, x, hi + 1) == trim_end_at(s, x, hi));
    } else {
        assert(trim_end_at(s, hi + 1, hi + 1) == hi + 1);
        assert(trim_end_at(s, hi, hi) == hi);
        assert(find_quote(s, hi, hi) is None);
        assert(find_quote(s, hi + 1, hi + 1) is None);
    }
}

/// `u` without the byte at `j`.
spec fn drop_at(u: Seq<u8>, j: int) -> Seq<u8> {
    u.subrange(0, j) + u.subrange(j + 1, u.len() as int)
}

/// A carriage return at `j` that comes before a line feed.
spec fn cr_lf_at(u: Seq<u8>, j: int) -> bool {
    0 <= j && j + 1 < u.len() && u[j] == CR && u[j + 1] == LF
}

proof fn lemma_drop_facts(u: Seq<u8>, j: int)
    requires
        cr_lf_at(u, j),
    ensures
        drop_at(u, j).len() == u.len() - 1,
        same_run(u, 0, drop_at(u, j), 0, j),
        same_tail(u, j + 1, drop_at(u, j), j),
        drop_at(u, j)[j] == LF,
{
    let u2 = drop_at(u, j);
    assert forall|k: int| 0 <= k < j implies #[trigger] u[0 + k] == u2[0 + k] by {}
    assert forall|k: int| 0 <= k < u.len() - (j + 1) implies #[trigger] u[j + 1 + k] == u2[j + k]
        by {}
}

proof fn lemma_line_end_before(u: Seq<u8>, u2: Seq<u8>, i: int, j: int)
    requires
        same_run(u, 0, u2, 0, j),
        0 <= i <= j,
    ensures
        line_end(u, i) < j ==> line_end(u2, i) == line_end(u, i),
        line_end(u, i) >= j ==> line_end(u2, i) == line_end(u2, j) && line_end(u, i) == line_end(
            u,
            j,
        ),
    decreases j - i,
{
    crate::summary::lemma_line_end(u, i);
    if i < j {
        lemma_run_at(u, 0, u2, 0, j, i);
        assert(u2[i] == u[i]);
        lemma_line_end_before(u, u2, i + 1, j);
    }
}

/// Dropping a carriage return that comes before a line feed changes nothing in the
/// summary or the key read from the lines that start before it.
#[verifier::spinoff_prover]
#[verifier::rlimit(40)]
proof fn lemma_drop_cr_scan(u: Seq<u8>, j: int, ls: int, st: ScanState)
    requires
        cr_lf_at(u, j),
        0 <= ls <= j,
    ensures
        summary_scan(drop_at(u, j), ls, st) == summary_scan(u, ls, st),
        key_scan(drop_at(u, j), ls, st.depth) == key_scan(u, ls, st.depth),
    decreases j - ls,
{
    let u2 = drop_at(u, j);
    lemma_drop_facts(u, j);
    lemma_line_end_before(u, u2, ls, j);
    crate::summary::lemma_line_end(u, ls);
    let le = line_end(u, ls);
    if le < j {
        lemma_sub_run(u, 0, u2, 0, j, ls, le - ls);
        lemma_run_line(u, ls, u2, ls, le - ls, st);
        match summary_line(u, ls, le, st) {
            Some(st2) => {
                lemma_drop_cr_scan(u, j, le + 1, st2);
            },
            None => {},
        }
        let st3 = ScanState {
            summary: st.summary,
            depth: depth_after(u, ls, le, st.depth, false, false),
            pending: st.pending,
            active: st.active,
        };
        lemma_drop_cr_scan(u, j, le + 1, st3);
    } else {
        assert(line_end(u, j) == line_end(u, j + 1));
        assert(line_end(u, j + 1) == j + 1);
        assert(le == j + 1);
        assert(line_end(u2, j) == j);
        lemma_line_cr(u, ls, j, st);
        lemma_sub_run(u, 0, u2, 0, j, ls, j - ls);
        lemma_run_line(u, ls, u2, ls, j - ls, st);
        match summary_line(u, ls, j, st) {
            Some(st2) => {
                lemma_tail_scan(u, j + 1, u2, j, j + 2, st2);
            },
            None => {},
        }
        let st3 = ScanState {
            summary: st.summary,
            depth: depth_after(u, ls, j, st.depth, false, false),
            pending: st.pending,
            active: st.active,
        };
        lemma_tail_scan(u, j + 1, u2, j, j + 2, st3);
    }
}

/// Where an offset of `u` lands once the carriage return at `j` is dropped.
spec fn moved(k: int, j: int) -> int {
    if k <= j {
        k
    } else {
        k - 1
    }
}

#[verifier::spinoff_prover]
proof fn lemma_drop_skip(u: Seq<u8>, j: int, i: int)
    requires
        cr_lf_at(u, j),
        0 <= i <= u.len(),
    ensures
        skip_blanks(drop_at(u, j), moved(i, j)) == moved(skip_blanks(u, i), j),
        i <= j ==> skip_blanks(u, i) != j,
    decreases u.len() - i,
{
    let u2 = drop_at(u, j);
    lemma_drop_facts(u, j);
    if i > j {
        lemma_tail_skip(u, j + 1, u2, j, i);
        lemma_skip_blanks(u, i);
    } else if i < j {
        lemma_run_at(u, 0, u2, 0, j, i);
        assert(u2[i] == u[i]);
        if is_blank(u[i]) {
            lemma_drop_skip(u, j, i + 1);
        }
    } else {
        lemma_tail_skip(u, j + 1, u2, j, j + 2);
        lemma_skip_blanks(u, j + 2);
        assert(is_blank(u[j]) && is_blank(u[j + 1]));
        assert(skip_blanks(u, j) == skip_blanks(u, j + 1));
        assert(skip_blanks(u, j + 1) == skip_blanks(u, j + 2));
        assert(skip_blanks(u2, j) == skip_blanks(u2, j + 1));
    }
}

#[verifier::spinoff_prover]
proof fn lemma_drop_brace(u: Seq<u8>, j: int, i: int, depth: int, in_str: bool, esc: bool)
    requires
        cr_lf_at(u, j),
        0 <= i,
    ensures
        brace_close(drop_at(u, j), moved(i, j), depth, in_str, esc) == (match brace_close(
            u,
            i,
            depth,
            in_str,
            esc,
        ) {
            Some(c) => Some(moved(c, j)),
            None => None,
        }),
    decreases u.len() - i,
{
    let u2 = drop_at(u, j);
    lemma_drop_facts(u, j);
    if i > j {
        lemma_tail_brace(u, j + 1, u2, j, i, depth, in_str, esc);
        lemma_brace_close_range(u, i, depth, in_str, esc);
    } else if i < j {
        lemma_run_at(u, 0, u2, 0, j, i);
        assert(u2[i] == u[i]);
        let (d, q, e) = scan_step(u[i], depth, in_str, esc);
        lemma_drop_brace(u, j, i + 1, d, q, e);
    } else {
        let (d1, q1, e1) = scan_step(CR, depth, in_str, esc);
        let (d2, q2, e2) = scan_step(LF, d1, q1, e1);
        assert(scan_step(LF, depth, in_str, esc) == (d2, q2, e2));
        lemma_tail_brace(u, j + 1, u2, j, j + 2, d2, q2, e2);
        lemma_brace_close_range(u, j + 2, d2, q2, e2);
        assert(u[j] == CR && u[j + 1] == LF);
        assert(brace_close(u, j, depth, in_str, esc) == brace_close(u, j + 1, d1, q1, e1));
        assert(brace_close(u, j + 1, d1, q1, e1) == brace_close(u, j + 2, d2, q2, e2));
        assert(brace_close(u2, j, depth, in_str, esc) == brace_close(u2, j + 1, d2, q2, e2));
    }
}

/// The name of the block at the start of `u` closes before `j`.
spec fn name_before(u: Seq<u8>, j: int) -> bool {
    &&& u.len() > 0
    &&& u[0] == QUOTE
    &&& unquote(u, 1, u.len() as int) matches Quoted::Closed(_, e) && e <= j
}

#[verifier::spinoff_prover]
proof fn lemma_drop_name(u: Seq<u8>, j: int)
    requires
        cr_lf_at(u, j),
    ensures
        name_before(drop_at(u, j), j) == name_before(u, j),
        name_before(u, j) ==> unquote(drop_at(u, j), 1, u.len() - 1) == unquote(
            u,
            1,
            u.len() as int,
        ),
{
    let u2 = drop_at(u, j);
    lemma_drop_facts(u, j);
    if j > 0 {
        lemma_run_at(u, 0, u2, 0, j, 0);
        assert(u2[0] == u[0]);
    }
    lemma_unquote_end(u, 1, u.len() as int);
    lemma_unquote_end(u2, 1, u2.len() as int);
    if name_before(u, j) {
        let v = unquote(u, 1, u.len() as int)->Closed_0;
        let e = unquote(u, 1, u.len() as int)->Closed_1;
        assert(u.subrange(1, e) =~= u2.subrange(1, 1 + (e - 1))) by {
            assert forall|k: int| 0 <= k < e - 1 implies #[trigger] u.subrange(1, e)[k]
                == u2.subrange(1, 1 + (e - 1))[k] by {
                lemma_run_at(u, 0, u2, 0, j, 1 + k);
            }
        }
        lemma_unquote_shift(u, 1, u2, 1, v, e);
    }
    if name_before(u2, j) {
        let v = unquote(u2, 1, u2.len() as int)->Closed_0;
        let e = unquote(u2, 1, u2.len() as int)->Closed_1;
        assert(u2.subrange(1, e) =~= u.subrange(1, 1 + (e - 1))) by {
            assert forall|k: int| 0 <= k < e - 1 implies #[trigger] u2.subrange(1, e)[k]
                == u.subrange(1, 1 + (e - 1))[k] by {
                lemma_run_at(u, 0, u2, 0, j, 1 + k);
            }
        }
        lemma_unquote_shift(u2, 1, u, 1, v, e);
    }
}

/// Dropping a carriage return that comes before a line feed, after the block's
/// name, moves the block's closing brace with it and changes nothing else.
#[verifier::spinoff_prover]
proof fn lemma_drop_cr_head(u: Seq<u8>, j: int)
    requires
        cr_lf_at(u, j),
        name_before(u, j),
    ensures
        block_head(drop_at(u, j), 0) == (match block_head(u, 0) {
            Some(h) => Some(BlockHead { name: h.name, close: moved(h.close, j) }),
            None => None,
        }),
{
    let u2 = drop_at(u, j);
    lemma_drop_facts(u, j);
    lemma_drop_name(u, j);
    lemma_unquote_end(u, 1, u.len() as int);
    let e = unquote(u, 1, u.len() as int)->Closed_1;
    assert(moved(e, j) == e);
    lemma_drop_skip(u, j, e);
    lemma_skip_blanks(u, e);
    let p2 = skip_blanks(u, e);
    assert(p2 != j);
    if p2 < u.len() {
        if p2 < j {
            lemma_run_at(u, 0, u2, 0, j, p2);
        } else {
            lemma_run_at(u, j + 1, u2, j, u.len() - (j + 1), p2);
        }
        assert(u2[moved(p2, j)] == u[p2]);
        if u[p2] == EQUALS {
            assert(moved(p2 + 1, j) == moved(p2, j) + 1);
            lemma_drop_skip(u, j, p2 + 1);
            lemma_skip_blanks(u, p2 + 1);
            let p3 = skip_blanks(u, p2 + 1);
            if p3 < u.len() {
                assert(p3 != j) by {
                    if p2 + 1 <= j {
                        lemma_drop_skip(u, j, p2 + 1);
                    }
                }
                if p3 < j {
                    lemma_run_at(u, 0, u2, 0, j, p3);
                } else {
                    lemma_run_at(u, j + 1, u2, j, u.len() - (j + 1), p3);
                }
                assert(u2[moved(p3, j)] == u[p3]);
                lemma_drop_brace(u, j, p3, 0, false, false);
            }
        }
    }
}

/// Every carriage return comes right before a line feed.
pub open spec fn no_lone_cr(u: Seq<u8>) -> bool {
    forall|i: int| 0 <= i < u.len() && #[trigger] u[i] == CR ==> i + 1 < u.len() && u[i + 1] == LF
}

/// The first carriage return at or after `i`, or the length of `u`.
spec fn first_cr(u: Seq<u8>, i: int) -> int
    decreases u.len() - i,
{
    if !(0 <= i < u.len()) {
        u.len() as int
    } else if u[i] == CR {
        i
    } else {
        first_cr(u, i + 1)
    }
}

proof fn lemma_first_cr(u: Seq<u8>, i: int)
    requires
        0 <= i <= u.len(),
    ensures
        i <= first_cr(u, i) <= u.len(),
        first_cr(u, i) < u.len() ==> u[first_cr(u, i)] == CR,
        forall|k: int| i <= k < first_cr(u, i) ==> u[k] != CR,
    decreases u.len() - i,
{
    if i < u.len() && u[i] != CR {
        lemma_first_cr(u, i + 1);
    }
}

proof fn lemma_drop_lf(u: Seq<u8>, j: int, i: int)
    requires
        cr_lf_at(u, j),
        forall|k: int| 0 <= k < j ==> u[k] != CR,
        0 <= i <= j,
    ensures
        lf_from(drop_at(u, j), i) == lf_from(u, i),
    decreases j - i,
{
    let u2 = drop_at(u, j);
    lemma_drop_facts(u, j);
    if i < j {
        lemma_run_at(u, 0, u2, 0, j, i);
        assert(u2[i] == u[i]);
        lemma_drop_lf(u, j, i + 1);
    } else {
        lemma_tail_lf(u, j + 1, u2, j, j + 2);
    }
}

proof fn lemma_lf_without_cr(u: Seq<u8>, i: int)
    requires
        forall|k: int| 0 <= k < u.len() ==> u[k] != CR,
        0 <= i <= u.len(),
    ensures
        lf_from(u, i) == u.subrange(i, u.len() as int),
    decreases u.len() - i,
{
    if i < u.len() {
        lemma_lf_without_cr(u, i + 1);
        assert(u.subrange(i, u.len() as int) =~= seq![u[i]] + u.subrange(i + 1, u.len() as int));
    } else {
        assert(u.subrange(i, u.len() as int) =~= Seq::<u8>::empty());
    }
}

/// The name of the block at the start of `u` holds no carriage return.
spec fn name_without_cr(u: Seq<u8>) -> bool {
    &&& u.len() > 0
    &&& u[0] == QUOTE
    &&& unquote(u, 1, u.len() as int) matches Quoted::Closed(_, e) && (forall|k: int|
        0 <= k < e ==> #[trigger] u[k] != CR)
}

/// Turning every CRLF of a block into LF changes neither its summary nor its key,
/// nor its head: whether it is one block up to its end, and its name.
#[verifier::spinoff_prover]
proof fn lemma_strip_cr(u: Seq<u8>)
    requires
        no_lone_cr(u),
        name_without_cr(u),
    ensures
        summary_of(lf_from(u, 0)) == summary_of(u),
        key_of(lf_from(u, 0)) == key_of(u),
        (block_head(u, 0) matches Some(h) && h.close == u.len() - 1) <==> (block_head(
            lf_from(u, 0),
            0,
        ) matches Some(h2) && h2.close == lf_from(u, 0).len() - 1),
        block_head(u, 0) is Some && block_head(lf_from(u, 0), 0) is Some ==> block_head(
            lf_from(u, 0),
            0,
        )->Some_0.name == block_head(u, 0)->Some_0.name,
        block_head(u, 0) is Some <==> block_head(lf_from(u, 0), 0) is Some,
    decreases u.len(),
{
    lemma_first_cr(u, 0);
    let j = first_cr(u, 0);
    if j == u.len() {
        lemma_lf_without_cr(u, 0);
        assert(u.subrange(0, u.len() as int) =~= u);
    } else {
        assert(cr_lf_at(u, j));
        let u2 = drop_at(u, j);
        lemma_drop_facts(u, j);
        lemma_unquote_end(u, 1, u.len() as int);
        let e = unquote(u, 1, u.len() as int)->Closed_1;
        assert(e <= j) by {
            if e > j {
                assert(u[j] != CR);
            }
        }
        assert(name_before(u, j));
        lemma_drop_name(u, j);
        lemma_drop_lf(u, j, 0);
        let st = ScanState {
            summary: crate::summary::empty_summary(),
            depth: 0,
            pending: None,
            active: None,
        };
        lemma_drop_cr_scan(u, j, 0, st);
        assert(summary_of(u2) == summary_of(u) && key_of(u2) == key_of(u)) by {
            reveal(summary_of);
            reveal(key_of);
        }
        lemma_drop_cr_head(u, j);
        if block_head(u, 0) is Some {
            lemma_block_head_range(u, 0);
        }
        assert forall|i: int| 0 <= i < u2.len() && #[trigger] u2[i] == CR implies i + 1 < u2.len()
            && u2[i + 1] == LF by {
            if i < j {
                lemma_run_at(u, 0, u2, 0, j, i);
            } else {
                lemma_run_at(u, j + 1, u2, j, u.len() - (j + 1), i + 1);
                assert(u[i + 1] == CR);
                lemma_run_at(u, j + 1, u2, j, u.len() - (j + 1), i + 2);
            }
        }
        assert(name_without_cr(u2)) by {
            assert(u2[0] == u[0]) by {
                lemma_run_at(u, 0, u2, 0, j, 0);
            }
            assert forall|k: int| 0 <= k < e implies #[trigger] u2[k] != CR by {
                lemma_run_at(u, 0, u2, 0, j, k);
            }
        }
        lemma_strip_cr(u2);
    }
}

/// A name that stays on one line: no carriage return, no line feed.
pub open spec fn one_line(n: Seq<u8>) -> bool {
    forall|k: int| 0 <= k < n.len() ==> #[trigger] n[k] != CR && n[k] != LF
}

/// A byte that a quoted string does not hold cannot stand between its quotes.
proof fn lemma_unquote_lacks(s: Seq<u8>, i: int, h: int)
    requires
        0 <= i,
        h <= s.len(),
        unquote(s, i, h) is Closed,
        one_line(unquote(s, i, h)->Closed_0),
    ensures
        forall|k: int| i <= k < unquote(s, i, h)->Closed_1 ==> #[trigger] s[k] != CR && s[k] != LF,
    decreases h - i,
{
    let v = unquote(s, i, h)->Closed_0;
    let e = unquote(s, i, h)->Closed_1;
    if s[i] == QUOTE {
    } else if s[i] == BACKSLASH {
        let w = unquote(s, i + 2, h)->Closed_0;
        assert(v == seq![s[i + 1]] + w);
        assert(v[0] == s[i + 1]);
        assert forall|k: int| 0 <= k < w.len() implies #[trigger] w[k] != CR && w[k] != LF by {
            assert(w[k] == v[k + 1]);
        }
        lemma_unquote_lacks(s, i + 2, h);
    } else {
        let w = unquote(s, i + 1, h)->Closed_0;
        assert(v == seq![s[i]] + w);
        assert(v[0] == s[i]);
        assert forall|k: int| 0 <= k < w.len() implies #[trigger] w[k] != CR && w[k] != LF by {
            assert(w[k] == v[k + 1]);
        }
        lemma_unquote_lacks(s, i + 1, h);
    }
}

proof fn lemma_nl_from_lf(x: Seq<u8>, i: int)
    requires
        0 <= i <= x.len(),
    ensures
        nl_from(x, i, lf()) == x.subrange(i, x.len() as int),
    decreases x.len() - i,
{
    if i < x.len() {
        lemma_nl_from_lf(x, i + 1);
        assert(x.subrange(i, x.len() as int) =~= seq![x[i]] + x.subrange(i + 1, x.len() as int));
        assert(lf() == seq![x[i]] || x[i] != LF);
    } else {
        assert(x.subrange(i, x.len() as int) =~= Seq::<u8>::empty());
    }
}

proof fn lemma_lf_of_crlf(x: Seq<u8>, i: int)
    requires
        no_cr(x),
        0 <= i <= x.len(),
    ensures
        lf_from(nl_from(x, i, crlf()), 0) == x.subrange(i, x.len() as int),
    decreases x.len() - i,
{
    if i < x.len() {
        lemma_lf_of_crlf(x, i + 1);
        let y = nl_from(x, i + 1, crlf());
        let w = nl_from(x, i, crlf());
        assert(x.subrange(i, x.len() as int) =~= seq![x[i]] + x.subrange(i + 1, x.len() as int));
        if x[i] == LF {
            assert(w =~= crlf() + y);
            assert(same_tail(w, 2, y, 0)) by {
                assert forall|k: int| 0 <= k < w.len() - 2 implies #[trigger] w[2 + k] == y[0 + k]
                    by {}
            }
            lemma_tail_lf(w, 2, y, 0, 2);
        } else {
            assert(x[i] != CR);
            assert(w =~= seq![x[i]] + y);
            assert(same_tail(w, 1, y, 0)) by {
                assert forall|k: int| 0 <= k < w.len() - 1 implies #[trigger] w[1 + k] == y[0 + k]
                    by {}
            }
            lemma_tail_lf(w, 1, y, 0, 1);
        }
    } else {
        assert(x.subrange(i, x.len() as int) =~= Seq::<u8>::empty());
    }
}

proof fn lemma_nl_from_prefix(x: Seq<u8>, i: int, n: int, nl: Seq<u8>)
    requires
        0 <= i <= n <= x.len(),
        forall|k: int| i <= k < n ==> #[trigger] x[k] != LF,
    ensures
        nl_from(x, i, nl).len() >= n - i,
        forall|k: int| i <= k < n ==> #[trigger] nl_from(x, i, nl)[k - i] == x[k],
    decreases n - i,
{
    if i < n {
        lemma_nl_from_prefix(x, i + 1, n, nl);
        assert forall|k: int| i <= k < n implies #[trigger] nl_from(x, i, nl)[k - i] == x[k] by {
            if k > i {
                assert(nl_from(x, i, nl)[k - i] == nl_from(x, i + 1, nl)[k - (i + 1)]);
            }
        }
    }
}

/// A block that is all of `t` and whose name stays on one line has, written with
/// `nl`, the same head, summary and key.
#[verifier::spinoff_prover]
proof fn lemma_written_form_facts(t: Seq<u8>, nl: Seq<u8>)
    requires
        nl == lf() || nl == crlf(),
        no_lone_cr(t),
        block_head(t, 0) matches Some(h) && h.close == t.len() - 1 && one_line(h.name),
    ensures
        ({
            let w = nl_from(lf_from(t, 0), 0, nl);
            &&& block_head(w, 0) matches Some(h2) && h2.close == w.len() - 1 && h2.name
                == block_head(t, 0)->Some_0.name
            &&& summary_of(w) == summary_of(t)
            &&& key_of(w) == key_of(t)
        }),
{
    let l = lf_from(t, 0);
    let w = nl_from(l, 0, nl);
    lemma_block_head_range(t, 0);
    lemma_unquote_end(t, 1, t.len() as int);
    lemma_unquote_lacks(t, 1, t.len() as int);
    assert(name_without_cr(t));
    lemma_strip_cr(t);
    crate::laws::lemma_lf_from_no_cr(t, 0);
    if nl == lf() {
        lemma_nl_from_lf(l, 0);
        assert(l.subrange(0, l.len() as int) =~= l);
    } else {
        lemma_lf_of_crlf(l, 0);
        assert(l.subrange(0, l.len() as int) =~= l);
        crate::laws::lemma_nl_from_breaks(l, 0);
        assert(no_lone_cr(w));
        let name = unquote(l, 1, l.len() as int)->Closed_0;
        let e = unquote(l, 1, l.len() as int)->Closed_1;
        lemma_unquote_end(l, 1, l.len() as int);
        lemma_unquote_lacks(l, 1, l.len() as int);
        lemma_nl_from_prefix(l, 0, e, nl);
        assert(w[0] == l[0]);
        assert(l.subrange(1, e) =~= w.subrange(1, 1 + (e - 1))) by {
            assert forall|k: int| 0 <= k < e - 1 implies #[trigger] l.subrange(1, e)[k]
                == w.subrange(1, 1 + (e - 1))[k] by {
                assert(w[(1 + k) - 0] == l[1 + k]);
            }
        }
        lemma_unquote_shift(l, 1, w, 1, name, e);
        assert forall|k: int| 0 <= k < e implies #[trigger] w[k] != CR by {
            assert(w[k - 0] == l[k]);
        }
        assert(name_without_cr(w));
        lemma_strip_cr(w);
    }
}

/// The text of a block read at `pos` is its part up to the closing brace, possibly
/// followed by LF or CRLF; its written form is that part with its line breaks made
/// `nl`.
proof fn lemma_parsed_block_text_any(s: Seq<u8>, pos: int, nl: Seq<u8>)
    requires
        block_head(s, pos) is Some,
    ensures
        ({
            let c = block_head(s, pos)->Some_0.close;
            let raw = s.subrange(pos, block_end(s, c + 1));
            let t = s.subrange(pos, c + 1);
            &&& raw == t || raw == t + lf() || raw == t + crlf()
            &&& normalized_block(raw, nl) == nl_from(lf_from(t, 0), 0, nl)
        }),
{
    lemma_block_head_range(s, pos);
    let c = block_head(s, pos)->Some_0.close;
    let end = block_end(s, c + 1);
    let raw = s.subrange(pos, end);
    let t = s.subrange(pos, c + 1);
    if end == c + 3 {
        assert(raw =~= t + crlf());
    } else if end == c + 2 {
        assert(raw =~= t + lf());
    } else {
        assert(raw =~= t);
    }
    lemma_block_trim(raw, c - pos);
    assert(raw.subrange(0, c - pos + 1) =~= t);
}

/// The first design read at `pos` from a text without a lone carriage return, whose
/// name stays on one line, reads alone in its written form.
#[verifier::spinoff_prover]
proof fn lemma_parsed_block_reads_alone_any(s: Seq<u8>, pos: int, nl: Seq<u8>)
    requires
        nl == lf() || nl == crlf(),
        no_lone_cr(s),
        block_head(s, pos) is Some,
        one_line(block_head(s, pos)->Some_0.name),
        design_at(s, pos, block_head(s, pos)->Some_0) is Some,
    ensures
        reads_alone(design_at(s, pos, block_head(s, pos)->Some_0)->Some_0, nl),
{
    lemma_block_head_range(s, pos);
    let h = block_head(s, pos)->Some_0;
    let c = h.close;
    let d = design_at(s, pos, h)->Some_0;
    let t = s.subrange(pos, c + 1);
    let raw = s.subrange(pos, block_end(s, c + 1));
    let w = nl_from(lf_from(t, 0), 0, nl);
    lemma_parsed_block_text_any(s, pos, nl);
    assert forall|j: int| 0 <= j <= c - pos implies #[trigger] t[0 + j] == s[pos + j] by {}
    lemma_block_head_shift(s, pos, t, 0);
    if raw == t + lf() {
        lemma_block_with_break(t, lf());
    } else if raw == t + crlf() {
        lemma_block_with_break(t, crlf());
    }
    assert forall|i: int| 0 <= i < t.len() && #[trigger] t[i] == CR implies i + 1 < t.len()
        && t[i + 1] == LF by {
        assert(s[pos + i] == CR);
    }
    lemma_written_form_facts(t, nl);
    let hw = block_head(w, 0)->Some_0;
    lemma_block_head_range(w, 0);
    assert(block_end(w, w.len() as int) == w.len());
    assert(w.subrange(0, w.len() as int) =~= w);
    assert(design_at(w, 0, hw) is Some);
    lemma_lone_block(w);
    reveal(reads_alone);
}

/// Each design read from a text without a lone carriage return, whose names stay on
/// one line, reads alone in its written form.
#[verifier::spinoff_prover]
proof fn lemma_parsed_read_alone_any(s: Seq<u8>, pos: int, nl: Seq<u8>)
    requires
        nl == lf() || nl == crlf(),
        no_lone_cr(s),
        0 <= pos,
        parse_from(s, pos) is Designs,
        forall|i: int|
            0 <= i < parse_from(s, pos)->Designs_0.len() ==> one_line(
                #[trigger] parse_from(s, pos)->Designs_0[i].name,
            ),
    ensures
        forall|i: int|
            0 <= i < parse_from(s, pos)->Designs_0.len() ==> reads_alone(
                #[trigger] parse_from(s, pos)->Designs_0[i],
                nl,
            ),
    decreases s.len() - pos,
{
    let ds = parse_from(s, pos)->Designs_0;
    if pos < s.len() {
        assert(block_head(s, pos) is Some);
        lemma_block_head_range(s, pos);
        let h = block_head(s, pos)->Some_0;
        lemma_parse_at_head(s, pos);
        let d = design_at(s, pos, h)->Some_0;
        let end = block_end(s, h.close + 1);
        let next = skip_blanks(s, end);
        lemma_skip_blanks(s, end);
        let rest = parse_from(s, next)->Designs_0;
        assert(ds == seq![d] + rest);
        assert(one_line(ds[0].name));
        lemma_parsed_block_reads_alone_any(s, pos, nl);
        assert forall|i: int| 0 <= i < rest.len() implies one_line(#[trigger] rest[i].name) by {
            assert(rest[i] == ds[i + 1]);
        }
        lemma_parsed_read_alone_any(s, next, nl);
        assert forall|i: int| 0 <= i < ds.len() implies reads_alone(#[trigger] ds[i], nl) by {
            if i > 0 {
                assert(ds[i] == rest[i - 1]);
            }
        }
    }
}

/// A file without a lone carriage return, whose design names each stay on one line,
/// written with either line break (with or without a byte order mark), reads as the
/// same designs: one for one, with the same names, keys and summaries, each text now
/// its written form and one line break; writing what was read back gives the same
/// file again.
pub proof fn law_any_break_file_reads_back(s: Seq<u8>, nl: Seq<u8>, with_bom: bool)
    requires
        nl == lf() || nl == crlf(),
        no_lone_cr(s),
        parse_designs(s) is Designs,
        forall|i: int|
            0 <= i < parse_designs(s)->Designs_0.len() ==> one_line(
                #[trigger] parse_designs(s)->Designs_0[i].name,
            ),
    ensures
        parse_designs(formatted(raws_of(parse_designs(s)->Designs_0), nl, with_bom)) matches Parsed::Designs(ds2)
            && all_read_back(parse_designs(s)->Designs_0, ds2, nl) && formatted(
            raws_of(ds2),
            nl,
            with_bom,
        ) == formatted(raws_of(parse_designs(s)->Designs_0), nl, with_bom),
{
    lemma_skip_blanks(s, 0);
    if s.len() >= 3 {
        lemma_skip_blanks(s, 3);
    }
    lemma_parsed_read_alone_any(s, first_offset(s), nl);
    lemma_designs_read_back(parse_designs(s)->Designs_0, nl, with_bom);
}

/// Exporting designs read from a file without a lone carriage return, whose names
/// each stay on one line, gives a CRLF bundle that reads back as the selected
/// designs, whatever line break the file used; so such an export is never refused
/// for a parse error, and exporting what was read back gives the same bundle again.
pub proof fn law_any_break_export_reads_back(s: Seq<u8>, sel: Set<usize>)
    requires
        no_lone_cr(s),
        parse_designs(s) is Designs,
        forall|i: int|
            0 <= i < parse_designs(s)->Designs_0.len() ==> one_line(
                #[trigger] parse_designs(s)->Designs_0[i].name,
            ),
    ensures
        ({
            let chosen = selection(parse_designs(s)->Designs_0, sel);
            parse_designs(formatted(raws_of(chosen), crlf(), false)) matches Parsed::Designs(ds2)
                && all_read_back(chosen, ds2, crlf()) && formatted(raws_of(ds2), crlf(), false)
                == formatted(raws_of(chosen), crlf(), false)
        }),
{
    let es = parse_designs(s)->Designs_0;
    lemma_skip_blanks(s, 0);
    if s.len() >= 3 {
        lemma_skip_blanks(s, 3);
    }
    lemma_parsed_read_alone_any(s, first_offset(s), crlf());
    lemma_selection_reads_alone(es, sel, crlf());
    lemma_designs_read_back(selection(es, sel), crlf(), false);
}

/// Importing designs selected from a source file into a target file, neither with a
/// lone carriage return and every design name on one line, writes a file that reads
/// back as the designs the import settled on, whatever line breaks the two files
/// used; so the check before the target is replaced always passes, and writing what
/// was read back gives the same file again.
pub proof fn law_any_break_import_reads_back(
    target: Seq<u8>,
    source: Seq<u8>,
    sel: Set<usize>,
    policy: ConflictPolicy,
)
    requires
        no_lone_cr(target),
        no_lone_cr(source),
        parse_designs(target) is Designs,
        parse_designs(source) is Designs,
        forall|i: int|
            0 <= i < parse_designs(target)->Designs_0.len() ==> one_line(
                #[trigger] parse_designs(target)->Designs_0[i].name,
            ),
        forall|i: int|
            0 <= i < parse_designs(source)->Designs_0.len() ==> one_line(
                #[trigger] parse_designs(source)->Designs_0[i].name,
            ),
    ensures
        ({
            let o = import_all(
                parse_designs(target)->Designs_0,
                selection(parse_designs(source)->Designs_0, sel),
                policy,
            );
            let nl = newline_of(target);
            parse_designs(formatted(raws_of(o.designs), nl, starts_with_bom(target))) matches Parsed::Designs(ds2)
                && all_read_back(o.designs, ds2, nl) && formatted(
                raws_of(ds2),
                nl,
                starts_with_bom(target),
            ) == formatted(raws_of(o.designs), nl, starts_with_bom(target))
        }),
{
    let nl = newline_of(target);
    let ts = parse_designs(target)->Designs_0;
    let es = parse_designs(source)->Designs_0;
    lemma_skip_blanks(target, 0);
    lemma_skip_blanks(source, 0);
    if target.len() >= 3 {
        lemma_skip_blanks(target, 3);
    }
    if source.len() >= 3 {
        lemma_skip_blanks(source, 3);
    }
    lemma_parsed_read_alone_any(target, first_offset(target), nl);
    lemma_parsed_read_alone_any(source, first_offset(source), nl);
    lemma_selection_reads_alone(es, sel, nl);
    let chosen = selection(es, sel);
    lemma_import_reads_alone(ts, chosen, policy, nl);
    lemma_designs_read_back(import_all(ts, chosen, policy).designs, nl, starts_with_bom(target));
}

/// `u` with the byte at `j` made a line feed.
spec fn lf_at(u: Seq<u8>, j: int) -> Seq<u8> {
    u.update(j, LF)
}

proof fn lemma_sub_skip(u: Seq<u8>, j: int, i: int)
    requires
        0 <= j < u.len(),
        u[j] == CR,
        0 <= i,
    ensures
        skip_blanks(lf_at(u, j), i) == skip_blanks(u, i),
    decreases u.len() - i,
{
    if i < u.len() {
        lemma_sub_skip(u, j, i + 1);
    }
}

proof fn lemma_sub_brace(u: Seq<u8>, j: int, i: int, depth: int, in_str: bool, esc: bool)
    requires
        0 <= j < u.len(),
        u[j] == CR,
        0 <= i,
    ensures
        brace_close(lf_at(u, j), i, depth, in_str, esc) == brace_close(u, i, depth, in_str, esc),
    decreases u.len() - i,
{
    if i < u.len() {
        let u2 = lf_at(u, j);
        assert(scan_step(u2[i], depth, in_str, esc) == scan_step(u[i], depth, in_str, esc));
        let (d, q, e) = scan_step(u[i], depth, in_str, esc);
        lemma_sub_brace(u, j, i + 1, d, q, e);
    }
}

/// Making a carriage return after the block's name a line feed changes nothing in
/// the block's head.
proof fn lemma_sub_cr_head(u: Seq<u8>, j: int)
    requires
        0 <= j < u.len(),
        u[j] == CR,
        name_before(u, j),
    ensures
        block_head(lf_at(u, j), 0) == block_head(u, 0),
        name_before(lf_at(u, j), j),
{
    let u2 = lf_at(u, j);
    lemma_unquote_end(u, 1, u.len() as int);
    let v = unquote(u, 1, u.len() as int)->Closed_0;
    let e = unquote(u, 1, u.len() as int)->Closed_1;
    assert(u.subrange(1, e) =~= u2.subrange(1, 1 + (e - 1)));
    lemma_unquote_shift(u, 1, u2, 1, v, e);
    lemma_skip_blanks(u, e);
    lemma_sub_skip(u, j, e);
    let p2 = skip_blanks(u, e);
    if p2 < u.len() && u[p2] == EQUALS {
        lemma_skip_blanks(u, p2 + 1);
        lemma_sub_skip(u, j, p2 + 1);
        let p3 = skip_blanks(u, p2 + 1);
        lemma_sub_brace(u, j, p3, 0, false, false);
    }
}

proof fn lemma_sub_lf(u: Seq<u8>, j: int, i: int)
    requires
        0 <= j < u.len(),
        u[j] == CR,
        !cr_lf_at(u, j),
        forall|k: int| 0 <= k < j ==> u[k] != CR,
        0 <= i <= j,
    ensures
        lf_from(lf_at(u, j), i) == lf_from(u, i),
    decreases j - i,
{
    let u2 = lf_at(u, j);
    if i < j {
        lemma_sub_lf(u, j, i + 1);
    } else {
        assert(same_tail(u, j + 1, u2, j + 1)) by {
            assert forall|k: int| 0 <= k < u.len() - (j + 1) implies #[trigger] u[j + 1 + k] == u2[j
                + 1 + k] by {}
        }
        lemma_tail_lf(u, j + 1, u2, j + 1, j + 1);
    }
}

proof fn lemma_first_cr_past(u: Seq<u8>, i: int, m: int)
    requires
        0 <= i <= m <= u.len(),
        forall|k: int| i <= k < m ==> u[k] != CR,
    ensures
        first_cr(u, i) >= m,
    decreases m - i,
{
    lemma_first_cr(u, i);
    if i < m {
        lemma_first_cr_past(u, i + 1, m);
    }
}

/// Turning every line break of a block into LF, lone carriage returns included,
/// changes nothing in its head: whether it is one block up to its end, and its name.
#[verifier::spinoff_prover]
proof fn lemma_strip_head(u: Seq<u8>)
    requires
        name_without_cr(u),
    ensures
        (block_head(u, 0) matches Some(h) && h.close == u.len() - 1) <==> (block_head(
            lf_from(u, 0),
            0,
        ) matches Some(h2) && h2.close == lf_from(u, 0).len() - 1),
        block_head(u, 0) is Some && block_head(lf_from(u, 0), 0) is Some ==> block_head(
            lf_from(u, 0),
            0,
        )->Some_0.name == block_head(u, 0)->Some_0.name,
        block_head(u, 0) is Some <==> block_head(lf_from(u, 0), 0) is Some,
    decreases u.len(), u.len() - first_cr(u, 0),
{
    lemma_first_cr(u, 0);
    let j = first_cr(u, 0);
    lemma_unquote_end(u, 1, u.len() as int);
    let e = unquote(u, 1, u.len() as int)->Closed_1;
    if j == u.len() {
        lemma_lf_without_cr(u, 0);
        assert(u.subrange(0, u.len() as int) =~= u);
    } else {
        assert(e <= j) by {
            if e > j {
                assert(u[j] != CR);
            }
        }
        assert(name_before(u, j));
        if block_head(u, 0) is Some {
            lemma_block_head_range(u, 0);
        }
        if cr_lf_at(u, j) {
            let u2 = drop_at(u, j);
            lemma_drop_facts(u, j);
            lemma_drop_name(u, j);
            lemma_drop_lf(u, j, 0);
            lemma_drop_cr_head(u, j);
            assert(name_without_cr(u2)) by {
                assert(u2[0] == u[0]) by {
                    lemma_run_at(u, 0, u2, 0, j, 0);
                }
                assert forall|k: int| 0 <= k < e implies #[trigger] u2[k] != CR by {
                    lemma_run_at(u, 0, u2, 0, j, k);
                }
            }
            lemma_strip_head(u2);
        } else {
            let u2 = lf_at(u, j);
            lemma_sub_cr_head(u, j);
            lemma_sub_lf(u, j, 0);
            lemma_unquote_end(u2, 1, u2.len() as int);
            assert(name_without_cr(u2)) by {
                assert forall|k: int| 0 <= k < e implies #[trigger] u2[k] != CR by {}
            }
            lemma_first_cr_past(u2, 0, j + 1);
            lemma_first_cr(u2, 0);
            assert(u2.len() == u.len());
            assert(u2.len() - first_cr(u2, 0) < u.len() - first_cr(u, 0));
            lemma_strip_head(u2);
        }
    }
}

/// The written form of `d` opens a block that takes all of it, under `d`'s name.
spec fn heads_alone(d: DesignView, nl: Seq<u8>) -> bool {
    let t = normalized_block(d.raw, nl);
    &&& written_block(d, nl)
    &&& block_head(t, 0) == Some(BlockHead { name: d.name, close: t.len() - 1 })
}

/// A block that is all of `t` and whose name stays on one line has, written with
/// `nl`, the same head.
#[verifier::spinoff_prover]
proof fn lemma_written_head_facts(t: Seq<u8>, nl: Seq<u8>)
    requires
        nl == lf() || nl == crlf(),
        block_head(t, 0) matches Some(h) && h.close == t.len() - 1 && one_line(h.name),
    ensures
        ({
            let w = nl_from(lf_from(t, 0), 0, nl);
            block_head(w, 0) matches Some(h2) && h2.close == w.len() - 1 && h2.name == block_head(
                t,
                0,
            )->Some_0.name
        }),
{
    let l = lf_from(t, 0);
    let w = nl_from(l, 0, nl);
    lemma_block_head_range(t, 0);
    lemma_unquote_end(t, 1, t.len() as int);
    lemma_unquote_lacks(t, 1, t.len() as int);
    assert(name_without_cr(t));
    lemma_strip_head(t);
    crate::laws::lemma_lf_from_no_cr(t, 0);
    if nl == lf() {
        lemma_nl_from_lf(l, 0);
        assert(l.subrange(0, l.len() as int) =~= l);
    } else {
        lemma_lf_of_crlf(l, 0);
        assert(l.subrange(0, l.len() as int) =~= l);
        let name = unquote(l, 1, l.len() as int)->Closed_0;
        let e = unquote(l, 1, l.len() as int)->Closed_1;
        lemma_unquote_end(l, 1, l.len() as int);
        lemma_unquote_lacks(l, 1, l.len() as int);
        lemma_nl_from_prefix(l, 0, e, nl);
        assert(w[0] == l[0]);
        assert(l.subrange(1, e) =~= w.subrange(1, 1 + (e - 1))) by {
            assert forall|k: int| 0 <= k < e - 1 implies #[trigger] l.subrange(1, e)[k]
                == w.subrange(1, 1 + (e - 1))[k] by {
                assert(w[(1 + k) - 0] == l[1 + k]);
            }
        }
        lemma_unquote_shift(l, 1, w, 1, name, e);
        assert forall|k: int| 0 <= k < e implies #[trigger] w[k] != CR by {
            assert(w[k - 0] == l[k]);
        }
        assert(name_without_cr(w));
        lemma_strip_head(w);
    }
}

/// The first design read at `pos`, whose name stays on one line, opens its written
/// form under its name.
#[verifier::spinoff_prover]
proof fn lemma_parsed_block_heads_alone(s: Seq<u8>, pos: int, nl: Seq<u8>)
    requires
        nl == lf() || nl == crlf(),
        block_head(s, pos) is Some,
        one_line(block_head(s, pos)->Some_0.name),
        design_at(s, pos, block_head(s, pos)->Some_0) is Some,
    ensures
        heads_alone(design_at(s, pos, block_head(s, pos)->Some_0)->Some_0, nl),
{
    lemma_block_head_range(s, pos);
    let h = block_head(s, pos)->Some_0;
    let c = h.close;
    let t = s.subrange(pos, c + 1);
    let w = nl_from(lf_from(t, 0), 0, nl);
    lemma_parsed_block_text_any(s, pos, nl);
    assert forall|j: int| 0 <= j <= c - pos implies #[trigger] t[0 + j] == s[pos + j] by {}
    lemma_block_head_shift(s, pos, t, 0);
    lemma_written_head_facts(t, nl);
    lemma_block_head_range(w, 0);
}

/// Each design read from a text, whose name stays on one line, opens its written
/// form under its name.
proof fn lemma_parsed_heads_alone(s: Seq<u8>, pos: int, nl: Seq<u8>)
    requires
        nl == lf() || nl == crlf(),
        0 <= pos,
        parse_from(s, pos) is Designs,
        forall|i: int|
            0 <= i < parse_from(s, pos)->Designs_0.len() ==> one_line(
                #[trigger] parse_from(s, pos)->Designs_0[i].name,
            ),
    ensures
        forall|i: int|
            0 <= i < parse_from(s, pos)->Designs_0.len() ==> heads_alone(
                #[trigger] parse_from(s, pos)->Designs_0[i],
                nl,
            ),
    decreases s.len() - pos,
{
    let ds = parse_from(s, pos)->Designs_0;
    if pos < s.len() {
        assert(block_head(s, pos) is Some);
        lemma_block_head_range(s, pos);
        let h = block_head(s, pos)->Some_0;
        lemma_parse_at_head(s, pos);
        let d = design_at(s, pos, h)->Some_0;
        let end = block_end(s, h.close + 1);
        let next = skip_blanks(s, end);
        lemma_skip_blanks(s, end);
        let rest = parse_from(s, next)->Designs_0;
        assert(ds == seq![d] + rest);
        assert(one_line(ds[0].name));
        lemma_parsed_block_heads_alone(s, pos, nl);
        assert forall|i: int| 0 <= i < rest.len() implies one_line(#[trigger] rest[i].name) by {
            assert(rest[i] == ds[i + 1]);
        }
        lemma_parsed_heads_alone(s, next, nl);
        assert forall|i: int| 0 <= i < ds.len() implies heads_alone(#[trigger] ds[i], nl) by {
            if i > 0 {
                assert(ds[i] == rest[i - 1]);
            }
        }
    }
}

/// A design whose written form opens a block under its name, written at `q` and
/// followed by `nl`, is read back there under its name, or the reading breaks.
#[verifier::spinoff_prover]
proof fn lemma_one_block_name_back(d: DesignView, nl: Seq<u8>, f: Seq<u8>, q: int)
    requires
        nl == lf() || nl == crlf(),
        heads_alone(d, nl),
        0 <= q,
        q + normalized_block(d.raw, nl).len() + nl.len() <= f.len(),
        f.subrange(q, q + normalized_block(d.raw, nl).len() + nl.len()) == normalized_block(
            d.raw,
            nl,
        ) + nl,
    ensures
        ({
            let t = normalized_block(d.raw, nl);
            let end2 = q + t.len() + nl.len();
            let hd = BlockHead { name: d.name, close: q + t.len() - 1 };
            &&& design_at(f, q, hd) is None ==> parse_from(f, q) == Parsed::Broken
            &&& design_at(f, q, hd) matches Some(x) ==> x.name == d.name && x.raw == t + nl
                && x.end == end2 && parse_from(f, q) == with_designs(
                seq![x],
                parse_from(f, skip_blanks(f, end2)),
            )
        }),
{
    let t = normalized_block(d.raw, nl);
    let u = t + nl;
    let end2 = q + t.len() + nl.len();
    let c = t.len() - 1;
    lemma_block_head_range(t, 0);
    assert forall|j: int| 0 <= j <= c implies #[trigger] f[q + j] == t[0 + j] by {
        assert(f.subrange(q, end2)[j] == u[j]);
    }
    lemma_block_head_shift(t, 0, f, q);
    assert(f.subrange(q, end2)[t.len() as int] == u[t.len() as int]);
    if nl == crlf() {
        assert(f.subrange(q, end2)[(t.len() + 1) as int] == u[(t.len() + 1) as int]);
    }
    assert(block_end(f, q + c + 1) == end2);
    lemma_parse_at_head(f, q);
}

/// A text that holds, after some blanks, the written blocks of designs that each
/// open their written form under their names reads back under those names, unless
/// its reading breaks.
#[verifier::spinoff_prover]
proof fn lemma_blocks_names_back(ds: Seq<DesignView>, nl: Seq<u8>, f: Seq<u8>, q0: int, w: Seq<u8>)
    requires
        nl == lf() || nl == crlf(),
        forall|i: int| 0 <= i < ds.len() ==> heads_alone(#[trigger] ds[i], nl),
        0 <= q0 <= f.len(),
        w == Seq::<u8>::empty() || w == nl,
        f.subrange(q0, f.len() as int) == w + blocks(raws_of(ds), nl),
    ensures
        parse_from(f, skip_blanks(f, q0)) is Broken || (parse_from(
            f,
            skip_blanks(f, q0),
        ) matches Parsed::Designs(ds2) && names_read_back(ds, ds2, nl)),
    decreases ds.len(),
{
    if ds.len() == 0 {
        let g = f.subrange(q0, f.len() as int);
        assert(raws_of(ds).len() == 0);
        assert(blocks(raws_of(ds), nl) =~= Seq::<u8>::empty());
        assert(g =~= w);
        assert forall|j: int| q0 <= j < q0 + w.len() implies is_blank(#[trigger] f[j]) by {
            assert(f[j] == g[j - q0]);
        }
        lemma_skip_blank_run(f, q0, w.len() as int);
        assert(parse_from(f, f.len() as int) == Parsed::Designs(Seq::<DesignView>::empty()));
        assert(names_read_back(ds, Seq::<DesignView>::empty(), nl));
    } else {
        let d = ds[0];
        let rest = ds.drop_first();
        let t = normalized_block(d.raw, nl);
        let q = q0 + w.len();
        let end2 = q + t.len() + nl.len();
        let w2 = if ds.len() > 1 {
            nl
        } else {
            Seq::<u8>::empty()
        };
        lemma_blocks_layout(ds, nl, f, q0, w);
        assert(heads_alone(d, nl));
        assert(f[q] == f.subrange(q, end2)[0]);
        assert(skip_blanks(f, q) == q);
        lemma_one_block_name_back(d, nl, f, q);
        let hd = BlockHead { name: d.name, close: q + t.len() - 1 };
        if design_at(f, q, hd) is Some {
            let x = design_at(f, q, hd)->Some_0;
            assert forall|i: int| 0 <= i < rest.len() implies heads_alone(#[trigger] rest[i], nl)
                by {
                assert(rest[i] == ds[i + 1]);
            }
            lemma_blocks_names_back(rest, nl, f, end2, w2);
            if parse_from(f, skip_blanks(f, end2)) is Designs {
                let ds2r = parse_from(f, skip_blanks(f, end2))->Designs_0;
                let ds2 = seq![x] + ds2r;
                assert(parse_from(f, q) == Parsed::Designs(ds2));
                assert forall|i: int| 0 <= i < ds.len() implies #[trigger] ds2[i].name
                    == ds[i].name && ds2[i].raw == normalized_block(ds[i].raw, nl) + nl by {
                    if i > 0 {
                        assert(ds2[i] == ds2r[i - 1]);
                        assert(ds[i] == rest[i - 1]);
                        assert(ds2r[i - 1].name == rest[i - 1].name);
                    } else {
                        assert(ds2[0] == x);
                    }
                }
            }
        }
    }
}

/// Designs that each open their written form under their names, written as a file
/// with line break `nl`, read back under those names, or the reading breaks; what
/// is read back is written as the same file again.
#[verifier::spinoff_prover]
proof fn lemma_designs_names_back(ds: Seq<DesignView>, nl: Seq<u8>, with_bom: bool)
    requires
        nl == lf() || nl == crlf(),
        forall|i: int| 0 <= i < ds.len() ==> heads_alone(#[trigger] ds[i], nl),
    ensures
        parse_designs(formatted(raws_of(ds), nl, with_bom)) is Broken || (parse_designs(
            formatted(raws_of(ds), nl, with_bom),
        ) matches Parsed::Designs(ds2) && names_read_back(ds, ds2, nl) && formatted(
            raws_of(ds2),
            nl,
            with_bom,
        ) == formatted(raws_of(ds), nl, with_bom)),
{
    let raws = raws_of(ds);
    let f = formatted(raws, nl, with_bom);
    let b = blocks(raws, nl);
    if with_bom {
        assert(f =~= bom() + b);
        assert(f[0] == 0xEF && f[1] == 0xBB && f[2] == 0xBF);
        assert(f.subrange(3, f.len() as int) =~= Seq::<u8>::empty() + b);
        lemma_blocks_names_back(ds, nl, f, 3, Seq::<u8>::empty());
    } else {
        assert(f =~= b);
        if ds.len() > 0 {
            lemma_blocks_front(raws, nl);
            assert(raws[0] == ds[0].raw);
            assert(heads_alone(ds[0], nl));
            assert(f[0] == normalized_block(ds[0].raw, nl)[0]);
        } else {
            assert(raws.len() == 0);
            assert(b =~= Seq::<u8>::empty());
        }
        assert(first_offset(f) == skip_blanks(f, 0));
        assert(f.subrange(0, f.len() as int) =~= Seq::<u8>::empty() + b);
        lemma_blocks_names_back(ds, nl, f, 0, Seq::<u8>::empty());
    }
    if parse_designs(f) is Designs {
        let ds2 = parse_designs(f)->Designs_0;
        assert forall|i: int| 0 <= i < ds.len() implies written_block(#[trigger] ds[i], nl) by {
            assert(heads_alone(ds[i], nl));
        }
        lemma_rewritten_same_raw(ds, ds2, nl);
        assert(formatted(raws_of(ds2), nl, with_bom) == formatted(raws_of(ds), nl, with_bom));
    }
}

/// Any file whose design names each stay on one line, written with either line
/// break (with or without a byte order mark), either reads back under the same
/// names, one for one, each text its written form and one line break, and is
/// written as the same file again; or its reading breaks (see `Quoted::Broken`). It
/// is never refused with a parse error.
pub proof fn law_file_names_read_back(s: Seq<u8>, nl: Seq<u8>, with_bom: bool)
    requires
        nl == lf() || nl == crlf(),
        parse_designs(s) is Designs,
        forall|i: int|
            0 <= i < parse_designs(s)->Designs_0.len() ==> one_line(
                #[trigger] parse_designs(s)->Designs_0[i].name,
            ),
    ensures
        ({
            let ds = parse_designs(s)->Designs_0;
            let f = formatted(raws_of(ds), nl, with_bom);
            parse_designs(f) is Broken || (parse_designs(f) matches Parsed::Designs(ds2)
                && names_read_back(ds, ds2, nl) && formatted(raws_of(ds2), nl, with_bom) == f)
        }),
{
    lemma_skip_blanks(s, 0);
    if s.len() >= 3 {
        lemma_skip_blanks(s, 3);
    }
    lemma_parsed_heads_alone(s, first_offset(s), nl);
    lemma_designs_names_back(parse_designs(s)->Designs_0, nl, with_bom);
}

/// Exporting designs whose names each stay on one line, read from any file, gives a
/// bundle that either reads back under the selected designs' names and is written as
/// the same bundle again, or whose reading breaks; it is never refused with a parse
/// error.
pub proof fn law_export_names_read_back(s: Seq<u8>, sel: Set<usize>)
    requires
        parse_designs(s) is Designs,
        forall|i: int|
            0 <= i < parse_designs(s)->Designs_0.len() ==> one_line(
                #[trigger] parse_designs(s)->Designs_0[i].name,
            ),
    ensures
        ({
            let chosen = selection(parse_designs(s)->Designs_0, sel);
            let f = formatted(raws_of(chosen), crlf(), false);
            parse_designs(f) is Broken || (parse_designs(f) matches Parsed::Designs(ds2)
                && names_read_back(chosen, ds2, crlf()) && formatted(raws_of(ds2), crlf(), false)
                == f)
        }),
{
    let es = parse_designs(s)->Designs_0;
    lemma_skip_blanks(s, 0);
    if s.len() >= 3 {
        lemma_skip_blanks(s, 3);
    }
    lemma_parsed_heads_alone(s, first_offset(s), crlf());
    let p = |d: DesignView| heads_alone(d, crlf());
    assert forall|i: int| 0 <= i < es.len() implies #[trigger] p(es[i]) by {}
    lemma_selection_keeps(es, sel, es.len() as int, p);
    let chosen = selection(es, sel);
    assert forall|k: int| 0 <= k < chosen.len() implies heads_alone(#[trigger] chosen[k], crlf())
        by {
        assert(p(chosen[k]));
    }
    lemma_designs_names_back(chosen, crlf(), false);
}

/// Importing designs selected from any source file into any target file, every
/// design name on one line, writes a file that either reads back under the names of
/// the designs the import settled on and is written as the same file again, or whose
/// reading breaks; the check before the target is replaced never finds a parse
/// error.
pub proof fn law_import_names_read_back(
    target: Seq<u8>,
    source: Seq<u8>,
    sel: Set<usize>,
    policy: ConflictPolicy,
)
    requires
        parse_designs(target) is Designs,
        parse_designs(source) is Designs,
        forall|i: int|
            0 <= i < parse_designs(target)->Designs_0.len() ==> one_line(
                #[trigger] parse_designs(target)->Designs_0[i].name,
            ),
        forall|i: int|
            0 <= i < parse_designs(source)->Designs_0.len() ==> one_line(
                #[trigger] parse_designs(source)->Designs_0[i].name,
            ),
    ensures
        ({
            let o = import_all(
                parse_designs(target)->Designs_0,
                selection(parse_designs(source)->Designs_0, sel),
                policy,
            );
            let nl = newline_of(target);
            let f = formatted(raws_of(o.designs), nl, starts_with_bom(target));
            parse_designs(f) is Broken || (parse_designs(f) matches Parsed::Designs(ds2)
                && names_read_back(o.designs, ds2, nl) && formatted(
                raws_of(ds2),
                nl,
                starts_with_bom(target),
            ) == f)
        }),
{
    let nl = newline_of(target);
    let ts = parse_designs(target)->Designs_0;
    let es = parse_designs(source)->Designs_0;
    lemma_skip_blanks(target, 0);
    lemma_skip_blanks(source, 0);
    if target.len() >= 3 {
        lemma_skip_blanks(target, 3);
    }
    if source.len() >= 3 {
        lemma_skip_blanks(source, 3);
    }
    lemma_parsed_heads_alone(target, first_offset(target), nl);
    lemma_parsed_heads_alone(source, first_offset(source), nl);
    let p = |d: DesignView| heads_alone(d, nl);
    assert forall|i: int| 0 <= i < es.len() implies #[trigger] p(es[i]) by {}
    assert forall|i: int| 0 <= i < ts.len() implies #[trigger] p(ts[i]) by {}
    lemma_selection_keeps(es, sel, es.len() as int, p);
    let chosen = selection(es, sel);
    lemma_import_keeps(ts, chosen, policy, p);
    let ds = import_all(ts, chosen, policy).designs;
    assert forall|k: int| 0 <= k < ds.len() implies heads_alone(#[trigger] ds[k], nl) by {
        assert(p(ds[k]));
    }
    lemma_designs_names_back(ds, nl, starts_with_bom(target));
}

} // verus!
