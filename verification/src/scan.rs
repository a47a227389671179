//! The lexical layer of the empire design format: blanks, quoted strings and
//! braces, each read from a byte offset of the text.
use vstd::prelude::*;
use vstd::string::*;
use vstd::utf8::*;

use crate::text::{
    append_str, lemma_boundary_near_ascii, lemma_str_valid, str_slice, text_bytes, trim_range,
    trim_start_at,
};

verus! {

pub const QUOTE: u8 = 34;
pub const BACKSLASH: u8 = 92;
pub const OPEN_BRACE: u8 = 123;
pub const CLOSE_BRACE: u8 = 125;
pub const EQUALS: u8 = 61;
pub const LF: u8 = 10;
pub const CR: u8 = 13;

/// The separators skipped between the parts of a design: space, tab, CR and LF.
pub open spec fn is_blank(b: u8) -> bool {
    b == 32 || b == 9 || b == 13 || b == 10
}

/// The first offset at or after `i` that does not hold a blank.
pub open spec fn skip_blanks(s: Seq<u8>, i: int) -> int
    decreases s.len() - i,
{
    if 0 <= i < s.len() && is_blank(s[i]) {
        skip_blanks(s, i + 1)
    } else {
        i
    }
}

/// Where the first design may start: after a UTF-8 byte order mark, if there is one,
/// and the blanks that follow.
pub open spec fn first_offset(s: Seq<u8>) -> int {
    if s.len() >= 3 && s[0] == 0xEF && s[1] == 0xBB && s[2] == 0xBF {
        skip_blanks(s, 3)
    } else {
        skip_blanks(s, 0)
    }
}

/// The result of reading a quoted string.
pub enum Quoted {
    /// The text with its escapes resolved, and the offset just past the closing quote.
    Closed(Seq<u8>, int),
    /// No closing quote before the end of the region.
    Unterminated,
    /// A backslash escapes a byte that starts a multi-byte character and the reading
    /// goes on to cut the text inside that character: no string can be formed.
    Broken,
}

pub open spec fn with_prefix(p: Seq<u8>, q: Quoted) -> Quoted {
    match q {
        Quoted::Closed(v, e) => Quoted::Closed(p + v, e),
        _ => q,
    }
}

/// Whether reading on from `i` (before `hi`) reaches a closing quote or an escape
/// with a byte after it.
pub open spec fn reaches_cut(s: Seq<u8>, i: int, hi: int) -> bool
    decreases hi - i,
{
    if !(0 <= i < hi && hi <= s.len()) {
        false
    } else if s[i] == QUOTE {
        true
    } else if s[i] == BACKSLASH {
        i + 1 < hi
    } else {
        reaches_cut(s, i + 1, hi)
    }
}

/// The quoted string whose text starts at `i` and must close before `hi`.
/// A backslash makes the next byte literal; other bytes stand for themselves.
pub open spec fn unquote(s: Seq<u8>, i: int, hi: int) -> Quoted
    decreases hi - i,
{
    if !(0 <= i < hi && hi <= s.len()) {
        Quoted::Unterminated
    } else if s[i] == QUOTE {
        Quoted::Closed(Seq::empty(), i + 1)
    } else if s[i] == BACKSLASH {
        if i + 1 >= hi {
            Quoted::Unterminated
        } else if s[i + 1] < 0x80 {
            with_prefix(seq![s[i + 1]], unquote(s, i + 2, hi))
        } else if reaches_cut(s, i + 2, hi) {
            Quoted::Broken
        } else {
            Quoted::Unterminated
        }
    } else {
        with_prefix(seq![s[i]], unquote(s, i + 1, hi))
    }
}

pub proof fn lemma_with_prefix_concat(p: Seq<u8>, r: Seq<u8>, q: Quoted)
    ensures
        with_prefix(p, with_prefix(r, q)) == with_prefix(p + r, q),
{
    match q {
        Quoted::Closed(v, e) => {
            assert(p + (r + v) =~= (p + r) + v);
        },
        _ => {},
    }
}

pub proof fn lemma_unquote_end(s: Seq<u8>, i: int, hi: int)
    requires
        0 <= i,
        hi <= s.len(),
    ensures
        unquote(s, i, hi) matches Quoted::Closed(_, e) ==> i < e <= hi && s[e - 1] == QUOTE,
    decreases hi - i,
{
    if 0 <= i < hi && hi <= s.len() {
        if s[i] == QUOTE {
        } else if s[i] == BACKSLASH {
            if i + 1 < hi && s[i + 1] < 0x80 {
                lemma_unquote_end(s, i + 2, hi);
            }
        } else {
            lemma_unquote_end(s, i + 1, hi);
        }
    }
}

/// A quoted string as read by `parse_quoted`.
pub enum QuoteScan {
    Closed(String, usize),
    Unterminated,
    Broken,
}

impl View for QuoteScan {
    type V = Quoted;

    open spec fn view(&self) -> Quoted {
        match self {
            QuoteScan::Closed(t, e) => Quoted::Closed(text_bytes(*t), *e as int),
            QuoteScan::Unterminated => Quoted::Unterminated,
            QuoteScan::Broken => Quoted::Broken,
        }
    }
}

pub fn skip_ascii_ws(b: &[u8], pos: usize) -> (r: usize)
    ensures
        r == skip_blanks(b@, pos as int),
        pos <= r,
        r < b@.len() ==> !is_blank(b@[r as int]),
{
    let mut p = pos;
    while p < b.len()
        invariant
            pos <= p,
            skip_blanks(b@, pos as int) == skip_blanks(b@, p as int),
        ensures
            pos <= p,
            skip_blanks(b@, pos as int) == p,
            p < b@.len() ==> !is_blank(b@[p as int]),
        decreases b@.len() - p,
    {
        let c = b[p];
        if c == 32 || c == 9 || c == 13 || c == 10 {
            p = p + 1;
        } else {
            break;
        }
    }
    p
}

pub fn skip_ws_and_bom(b: &[u8]) -> (r: usize)
    ensures
        r == first_offset(b@),
{
    if b.len() >= 3 && b[0] == 0xEF && b[1] == 0xBB && b[2] == 0xBF {
        skip_ascii_ws(b, 3)
    } else {
        skip_ascii_ws(b, 0)
    }
}

fn reaches_cut_from(b: &[u8], i: usize, hi: usize) -> (r: bool)
    requires
        hi <= b@.len(),
    ensures
        r == reaches_cut(b@, i as int, hi as int),
{
    let mut p = i;
    while p < hi
        invariant
            i <= p,
            hi <= b@.len(),
            reaches_cut(b@, i as int, hi as int) == reaches_cut(b@, p as int, hi as int),
        decreases hi - p,
    {
        if b[p] == QUOTE {
            return true;
        } else if b[p] == BACKSLASH {
            return p + 1 < hi;
        }
        p = p + 1;
    }
    false
}

/// Reads the quoted string that opens at `start` in `input` (whose bytes are `b`)
/// and must close before `hi`: its text starts at `start + 1`, whatever byte stands
/// at `start`. The text is cut out from `start + 1` when a closing quote or an escape
/// is reached, so that offset must then be a character boundary.
pub fn parse_quoted(input: &str, b: &[u8], start: usize, hi: usize) -> (r: QuoteScan)
    requires
        b@ == input.spec_bytes(),
        start < hi <= b@.len(),
        reaches_cut(b@, start + 1, hi as int) ==> is_char_boundary(b@, start + 1),
    ensures
        r@ == unquote(b@, start + 1, hi as int),
{
    let ghost s = b@;
    proof {
        lemma_str_valid(input);
    }
    let mut out = String::new();
    let mut chunk = start + 1;
    let mut pos = start + 1;
    assert(text_bytes(out) =~= Seq::<u8>::empty());
    assert(s.subrange(chunk as int, pos as int) =~= Seq::<u8>::empty());
    assert(Seq::<u8>::empty() + Seq::<u8>::empty() =~= Seq::<u8>::empty());
    assert(with_prefix(Seq::empty(), unquote(s, pos as int, hi as int)) == unquote(
        s,
        pos as int,
        hi as int,
    )) by {
        match unquote(s, pos as int, hi as int) {
            Quoted::Closed(v, e) => {
                assert(Seq::<u8>::empty() + v =~= v);
            },
            _ => {},
        }
    }
    while pos < hi
        invariant
            b@ == s,
            s == input.spec_bytes(),
            valid_utf8(s),
            start < hi <= s.len(),
            reaches_cut(s, start + 1, hi as int) ==> is_char_boundary(s, start + 1),
            start + 1 <= chunk <= pos <= hi,
            chunk > start + 1 ==> s[chunk - 1] < 0x80,
            chunk == start + 1 ==> reaches_cut(s, start + 1, hi as int) == reaches_cut(
                s,
                pos as int,
                hi as int,
            ),
            unquote(s, start + 1, hi as int) == with_prefix(
                text_bytes(out) + s.subrange(chunk as int, pos as int),
                unquote(s, pos as int, hi as int),
            ),
        decreases hi - pos,
    {
        let c = b[pos];
        if c == QUOTE {
            proof {
                if chunk > start + 1 {
                    lemma_boundary_near_ascii(s, chunk as int);
                }
                lemma_boundary_near_ascii(s, pos as int);
            }
            let piece = str_slice(input, chunk, pos);
            append_str(&mut out, piece);
            assert(text_bytes(out) + Seq::<u8>::empty() =~= text_bytes(out));
            return QuoteScan::Closed(out, pos + 1);
        } else if c == BACKSLASH {
            if pos + 1 >= hi {
                return QuoteScan::Unterminated;
            }
            let e = b[pos + 1];
            if e < 0x80 {
                proof {
                    if chunk > start + 1 {
                        lemma_boundary_near_ascii(s, chunk as int);
                    }
                    lemma_boundary_near_ascii(s, pos as int);
                    lemma_boundary_near_ascii(s, pos + 1);
                    lemma_boundary_near_ascii(s, pos + 2);
                }
                let ghost before = text_bytes(out) + s.subrange(chunk as int, pos as int);
                let piece = str_slice(input, chunk, pos);
                append_str(&mut out, piece);
                let escaped = str_slice(input, pos + 1, pos + 2);
                append_str(&mut out, escaped);
                proof {
                    assert(s.subrange(pos + 1, pos + 2) =~= seq![e]);
                    lemma_with_prefix_concat(before, seq![e], unquote(s, pos + 2, hi as int));
                    assert(text_bytes(out) =~= before + seq![e]);
                    assert(s.subrange(pos + 2, pos + 2) =~= Seq::<u8>::empty());
                    assert(text_bytes(out) + s.subrange(pos + 2, pos + 2) =~= text_bytes(out));
                }
                pos = pos + 2;
                chunk = pos;
            } else {
                if reaches_cut_from(b, pos + 2, hi) {
                    return QuoteScan::Broken;
                } else {
                    return QuoteScan::Unterminated;
                }
            }
        } else {
            proof {
                let before = text_bytes(out) + s.subrange(chunk as int, pos as int);
                lemma_with_prefix_concat(before, seq![c], unquote(s, pos + 1, hi as int));
                assert(before + seq![c] =~= text_bytes(out) + s.subrange(chunk as int, pos + 1));
            }
            pos = pos + 1;
        }
    }
    QuoteScan::Unterminated
}


/// How one byte moves the brace scanner: the brace depth, whether it is inside a
/// quoted string and whether the previous byte was an escaping backslash there.
pub open spec fn scan_step(c: u8, depth: int, in_str: bool, esc: bool) -> (int, bool, bool) {
    if in_str {
        if esc {
            (depth, true, false)
        } else if c == BACKSLASH {
            (depth, true, true)
        } else if c == QUOTE {
            (depth, false, false)
        } else {
            (depth, true, false)
        }
    } else if c == QUOTE {
        (depth, true, false)
    } else if c == OPEN_BRACE {
        (depth + 1, false, false)
    } else if c == CLOSE_BRACE {
        (if depth > 0 { depth - 1 } else { 0 }, false, false)
    } else {
        (depth, false, false)
    }
}

/// The offset of the brace that brings the depth back to zero, scanning from `i`
/// in the given state; braces inside quoted strings do not count.
pub open spec fn brace_close(s: Seq<u8>, i: int, depth: int, in_str: bool, esc: bool) -> Option<int>
    decreases s.len() - i,
{
    if !(0 <= i < s.len()) {
        None
    } else {
        let (d, q, e) = scan_step(s[i], depth, in_str, esc);
        if !in_str && s[i] == CLOSE_BRACE && d == 0 {
            Some(i)
        } else {
            brace_close(s, i + 1, d, q, e)
        }
    }
}

/// The brace depth after scanning `s[i..hi]` from the given state.
pub open spec fn depth_after(s: Seq<u8>, i: int, hi: int, depth: int, in_str: bool, esc: bool) -> int
    decreases hi - i,
{
    if !(0 <= i < hi && hi <= s.len()) {
        depth
    } else {
        let (d, q, e) = scan_step(s[i], depth, in_str, esc);
        depth_after(s, i + 1, hi, d, q, e)
    }
}

pub proof fn lemma_depth_after_bound(s: Seq<u8>, i: int, hi: int, depth: int, in_str: bool, esc: bool)
    requires
        0 <= i <= hi <= s.len(),
        0 <= depth,
    ensures
        0 <= depth_after(s, i, hi, depth, in_str, esc) <= depth + (hi - i),
    decreases hi - i,
{
    if i < hi {
        let (d, q, e) = scan_step(s[i], depth, in_str, esc);
        lemma_depth_after_bound(s, i + 1, hi, d, q, e);
    }
}

pub proof fn lemma_brace_close_range(s: Seq<u8>, i: int, depth: int, in_str: bool, esc: bool)
    requires
        0 <= i,
    ensures
        brace_close(s, i, depth, in_str, esc) matches Some(c) ==> i <= c < s.len() && s[c]
            == CLOSE_BRACE,
    decreases s.len() - i,
{
    if 0 <= i < s.len() {
        let (d, q, e) = scan_step(s[i], depth, in_str, esc);
        if !(!in_str && s[i] == CLOSE_BRACE && d == 0) {
            lemma_brace_close_range(s, i + 1, d, q, e);
        }
    }
}

/// The end of a design block whose closing brace ends before `p`: one line break
/// (CRLF or LF) right after the brace belongs to the block.
pub open spec fn block_end(s: Seq<u8>, p: int) -> int {
    if p + 2 <= s.len() && s[p] == CR && s[p + 1] == LF {
        p + 2
    } else if p + 1 <= s.len() && s[p] == LF {
        p + 1
    } else {
        p
    }
}

/// The offset of the brace that closes the one opened at `open_pos`.
pub fn find_matching_brace(b: &[u8], open_pos: usize) -> (r: Option<usize>)
    ensures
        r matches Some(c) ==> brace_close(b@, open_pos as int, 0, false, false) == Some(c as int),
        r is None ==> brace_close(b@, open_pos as int, 0, false, false) is None,
{
    let mut pos = open_pos;
    let mut depth: usize = 0;
    let mut in_string = false;
    let mut escaped = false;
    while pos < b.len()
        invariant
            open_pos <= pos,
            depth <= pos - open_pos,
            !in_string ==> !escaped,
            brace_close(b@, open_pos as int, 0, false, false) == brace_close(
                b@,
                pos as int,
                depth as int,
                in_string,
                escaped,
            ),
        decreases b@.len() - pos,
    {
        let byte = b[pos];
        if in_string {
            if escaped {
                escaped = false;
            } else if byte == BACKSLASH {
                escaped = true;
            } else if byte == QUOTE {
                in_string = false;
            }
        } else if byte == QUOTE {
            in_string = true;
        } else if byte == OPEN_BRACE {
            depth = depth + 1;
        } else if byte == CLOSE_BRACE {
            depth = if depth > 0 { depth - 1 } else { 0 };
            if depth == 0 {
                return Some(pos);
            }
        }
        pos = pos + 1;
    }
    None
}

/// The brace depth after the bytes `b[lo..hi]` of one line, starting from `depth`
/// outside any string.
pub fn apply_brace_delta(b: &[u8], lo: usize, hi: usize, depth: usize) -> (r: usize)
    requires
        lo <= hi <= b@.len(),
        depth + (hi - lo) <= usize::MAX,
    ensures
        r == depth_after(b@, lo as int, hi as int, depth as int, false, false),
        r <= depth + (hi - lo),
{
    proof {
        lemma_depth_after_bound(b@, lo as int, hi as int, depth as int, false, false);
    }
    let mut pos = lo;
    let mut d = depth;
    let mut in_string = false;
    let mut escaped = false;
    while pos < hi
        invariant
            lo <= pos <= hi <= b@.len(),
            depth + (hi - lo) <= usize::MAX,
            d <= depth + (pos - lo),
            !in_string ==> !escaped,
            depth_after(b@, lo as int, hi as int, depth as int, false, false) == depth_after(
                b@,
                pos as int,
                hi as int,
                d as int,
                in_string,
                escaped,
            ),
        decreases hi - pos,
    {
        let byte = b[pos];
        if in_string {
            if escaped {
                escaped = false;
            } else if byte == BACKSLASH {
                escaped = true;
            } else if byte == QUOTE {
                in_string = false;
            }
        } else if byte == QUOTE {
            in_string = true;
        } else if byte == OPEN_BRACE {
            d = d + 1;
        } else if byte == CLOSE_BRACE {
            d = if d > 0 { d - 1 } else { 0 };
        }
        pos = pos + 1;
    }
    d
}

pub fn include_single_trailing_newline(b: &[u8], pos: usize) -> (r: usize)
    requires
        pos <= b@.len(),
    ensures
        r == block_end(b@, pos as int),
        pos <= r <= b@.len(),
{
    if b.len() - pos >= 2 && b[pos] == CR && b[pos + 1] == LF {
        pos + 2
    } else if b.len() - pos >= 1 && b[pos] == LF {
        pos + 1
    } else {
        pos
    }
}


/// The offset of the first quote in `s[i..hi]`.
pub open spec fn find_quote(s: Seq<u8>, i: int, hi: int) -> Option<int>
    decreases hi - i,
{
    if !(0 <= i < hi && hi <= s.len()) {
        None
    } else if s[i] == QUOTE {
        Some(i)
    } else {
        find_quote(s, i + 1, hi)
    }
}

/// The result of looking up a quoted value in a line.
pub enum Lookup {
    Missing,
    Found(Seq<u8>),
    Broken,
}

/// The first quoted string of `s[lo..hi]`: missing when there is no quote or the
/// string does not close before `hi`.
pub open spec fn first_quoted_in(s: Seq<u8>, lo: int, hi: int) -> Lookup {
    match find_quote(s, lo, hi) {
        None => Lookup::Missing,
        Some(q) => match unquote(s, q + 1, hi) {
            Quoted::Closed(v, _) => Lookup::Found(v),
            Quoted::Unterminated => Lookup::Missing,
            Quoted::Broken => Lookup::Broken,
        },
    }
}

/// When `s[lo..hi]` reads `key`, optional whitespace, `=`: the offset of what
/// follows the `=` and the whitespace after it.
pub open spec fn assignment_value_at(s: Seq<u8>, lo: int, hi: int, key: Seq<u8>) -> Option<int> {
    if lo + key.len() <= hi && s.subrange(lo, lo + key.len()) == key {
        let p = trim_start_at(s, lo + key.len(), hi);
        if p < hi && s[p] == EQUALS {
            Some(trim_start_at(s, p + 1, hi))
        } else {
            None
        }
    } else {
        None
    }
}

/// The quoted value assigned to `key` on the line `s[lo..hi]`.
pub open spec fn assignment_lookup(s: Seq<u8>, lo: int, hi: int, key: Seq<u8>) -> Lookup {
    match assignment_value_at(s, lo, hi, key) {
        None => Lookup::Missing,
        Some(v) => first_quoted_in(s, v, hi),
    }
}

/// A looked-up value as `first_quoted` and `assignment_quoted_value` return it.
pub enum LookupScan {
    Missing,
    Found(String),
    Broken,
}

impl View for LookupScan {
    type V = Lookup;

    open spec fn view(&self) -> Lookup {
        match self {
            LookupScan::Missing => Lookup::Missing,
            LookupScan::Found(t) => Lookup::Found(text_bytes(*t)),
            LookupScan::Broken => Lookup::Broken,
        }
    }
}

fn find_quote_in(b: &[u8], lo: usize, hi: usize) -> (r: Option<usize>)
    requires
        lo <= hi <= b@.len(),
    ensures
        r matches Some(q) ==> find_quote(b@, lo as int, hi as int) == Some(q as int) && lo <= q
            < hi && b@[q as int] == QUOTE,
        r is None ==> find_quote(b@, lo as int, hi as int) is None,
{
    let mut p = lo;
    while p < hi
        invariant
            lo <= p <= hi <= b@.len(),
            find_quote(b@, lo as int, hi as int) == find_quote(b@, p as int, hi as int),
        decreases hi - p,
    {
        if b[p] == QUOTE {
            return Some(p);
        }
        p = p + 1;
    }
    None
}

/// The first quoted string of the line `b[lo..hi]` of `text`.
pub fn first_quoted(text: &str, b: &[u8], lo: usize, hi: usize) -> (r: LookupScan)
    requires
        b@ == text.spec_bytes(),
        lo <= hi <= b@.len(),
    ensures
        r@ == first_quoted_in(b@, lo as int, hi as int),
{
    match find_quote_in(b, lo, hi) {
        None => LookupScan::Missing,
        Some(q) => {
            proof {
                lemma_str_valid(text);
                lemma_boundary_near_ascii(b@, q + 1);
            }
            match parse_quoted(text, b, q, hi) {
                QuoteScan::Closed(v, _) => LookupScan::Found(v),
                QuoteScan::Unterminated => LookupScan::Missing,
                QuoteScan::Broken => LookupScan::Broken,
            }
        },
    }
}

fn starts_with_at(b: &[u8], lo: usize, hi: usize, key: &[u8]) -> (r: bool)
    requires
        lo <= hi <= b@.len(),
    ensures
        r == (lo + key@.len() <= hi && b@.subrange(lo as int, lo + key@.len()) == key@),
{
    if hi - lo < key.len() {
        return false;
    }
    let mut i: usize = 0;
    while i < key.len()
        invariant
            lo + key@.len() <= hi <= b@.len(),
            i <= key@.len(),
            forall|j: int| 0 <= j < i ==> b@[lo + j] == key@[j],
        decreases key@.len() - i,
    {
        if b[lo + i] != key[i] {
            assert(b@.subrange(lo as int, lo + key@.len())[i as int] != key@[i as int]);
            return false;
        }
        i = i + 1;
    }
    assert(b@.subrange(lo as int, lo + key@.len()) =~= key@);
    true
}

fn skip_spaces(b: &[u8], lo: usize, hi: usize) -> (r: usize)
    requires
        lo <= hi <= b@.len(),
    ensures
        r == trim_start_at(b@, lo as int, hi as int),
        lo <= r <= hi,
{
    let (a, _z) = trim_range(b, lo, hi);
    a
}

/// When the line `b[lo..hi]` assigns to `key`: the offset of the assigned value.
pub fn assignment_value(b: &[u8], lo: usize, hi: usize, key: &[u8]) -> (r: Option<usize>)
    requires
        lo <= hi <= b@.len(),
    ensures
        r matches Some(v) ==> assignment_value_at(b@, lo as int, hi as int, key@) == Some(
            v as int,
        ) && v <= hi,
        r is None ==> assignment_value_at(b@, lo as int, hi as int, key@) is None,
{
    if !starts_with_at(b, lo, hi, key) {
        return None;
    }
    let p = skip_spaces(b, lo + key.len(), hi);
    if p < hi && b[p] == EQUALS {
        Some(skip_spaces(b, p + 1, hi))
    } else {
        None
    }
}

/// Whether the line `b[lo..hi]` assigns to `key`.
pub fn is_block_assignment(b: &[u8], lo: usize, hi: usize, key: &[u8]) -> (r: bool)
    requires
        lo <= hi <= b@.len(),
    ensures
        r == assignment_value_at(b@, lo as int, hi as int, key@) is Some,
{
    assignment_value(b, lo, hi, key).is_some()
}

/// The quoted value that the line `b[lo..hi]` of `text` assigns to `key`.
pub fn assignment_quoted_value(text: &str, b: &[u8], lo: usize, hi: usize, key: &[u8]) -> (r:
    LookupScan)
    requires
        b@ == text.spec_bytes(),
        lo <= hi <= b@.len(),
    ensures
        r@ == assignment_lookup(b@, lo as int, hi as int, key@),
{
    match assignment_value(b, lo, hi, key) {
        None => LookupScan::Missing,
        Some(v) => first_quoted(text, b, v, hi),
    }
}

} // verus!
