//! Byte-level text facts shared by the parser and the formatter: UTF-8
//! boundaries, Unicode whitespace, string slicing and decimal numbers.
use vstd::prelude::*;
use vstd::string::*;
use vstd::utf8::*;

verus! {

/// The UTF-8 bytes of a `String`.
pub open spec fn text_bytes(s: String) -> Seq<u8> {
    encode_utf8(s@)
}

/// Encoding distributes over concatenation.
pub proof fn lemma_encode_concat(a: Seq<char>, b: Seq<char>)
    ensures
        encode_utf8(a + b) == encode_utf8(a) + encode_utf8(b),
    decreases a.len(),
{
    if a.len() == 0 {
        assert(a + b =~= b);
        assert(encode_utf8(a) =~= Seq::<u8>::empty());
        assert(encode_utf8(a) + encode_utf8(b) =~= encode_utf8(b));
    } else {
        lemma_encode_concat(a.drop_first(), b);
        assert((a + b).drop_first() =~= a.drop_first() + b);
        assert((a + b)[0] == a[0]);
        assert(encode_utf8(a + b) =~= encode_utf8(a) + encode_utf8(b));
    }
}

/// Equal encodings come from equal character sequences.
pub proof fn lemma_encode_injective(a: Seq<char>, b: Seq<char>)
    requires
        encode_utf8(a) == encode_utf8(b),
    ensures
        a == b,
{
    encode_utf8_decode_utf8(a);
    encode_utf8_decode_utf8(b);
}

/// A position next to an ASCII byte (or at either end) starts a character.
pub proof fn lemma_boundary_near_ascii(s: Seq<u8>, k: int)
    requires
        valid_utf8(s),
        0 <= k <= s.len(),
        k == 0 || k == s.len() || s[k] < 0x80 || s[k - 1] < 0x80,
    ensures
        is_char_boundary(s, k),
{
    is_char_boundary_start_end_of_seq(s);
    if k == 0 || k == s.len() {
    } else if s[k] < 0x80 {
        is_char_boundary_iff_not_is_continuation_byte(s, k);
    } else {
        is_char_boundary_iff_not_is_continuation_byte(s, k - 1);
        valid_utf8_split(s, k - 1);
        let t = s.subrange(k - 1, s.len() as int);
        assert(t[0] == s[k - 1]);
        assert(valid_first_scalar(t));
        assert(length_of_first_scalar(t) == 1);
        let u = s.subrange(k, s.len() as int);
        assert(pop_first_scalar(t) =~= u);
        assert(valid_utf8(u));
        assert(u[0] == s[k]);
        assert(valid_first_scalar(u));
        is_char_boundary_iff_not_is_continuation_byte(s, k);
    }
}

/// From one character boundary, the next one lies one encoded scalar further.
pub proof fn lemma_next_boundary(s: Seq<u8>, k: int)
    requires
        valid_utf8(s),
        0 <= k < s.len(),
        is_char_boundary(s, k),
    ensures
        valid_first_scalar(s.subrange(k, s.len() as int)),
        k + length_of_first_scalar(s.subrange(k, s.len() as int)) <= s.len(),
        is_char_boundary(s, k + length_of_first_scalar(s.subrange(k, s.len() as int))),
    decreases s.len(),
{
    let l0 = length_of_first_scalar(s);
    assert(valid_first_scalar(s));
    assert(1 <= l0 <= s.len());
    let p = pop_first_scalar(s);
    assert(p.len() == s.len() - l0);
    assert(valid_utf8(p));
    if k == 0 {
        assert(s.subrange(0, s.len() as int) =~= s);
        assert(is_char_boundary(p, 0));
    } else {
        assert(is_char_boundary(p, k - l0));
        assert(0 <= k - l0);
        assert(k - l0 < p.len());
        lemma_next_boundary(p, k - l0);
        assert(p.subrange(k - l0, p.len() as int) =~= s.subrange(k, s.len() as int));
    }
}

/// A boundary of a string is still a boundary of any prefix that ends on a boundary.
pub proof fn lemma_boundary_in_prefix(s: Seq<u8>, hi: int, lo: int)
    requires
        valid_utf8(s),
        0 <= lo <= hi <= s.len(),
        is_char_boundary(s, lo),
        is_char_boundary(s, hi),
    ensures
        valid_utf8(s.subrange(0, hi)),
        is_char_boundary(s.subrange(0, hi), lo),
{
    valid_utf8_split(s, hi);
    let h = s.subrange(0, hi);
    is_char_boundary_start_end_of_seq(h);
    if lo < hi {
        is_char_boundary_iff_not_is_continuation_byte(s, lo);
        assert(h[lo] == s[lo]);
        is_char_boundary_iff_not_is_continuation_byte(h, lo);
    }
}

/// The bytes of a `str` are valid UTF-8.
pub proof fn lemma_str_valid(s: &str)
    ensures
        valid_utf8(s.spec_bytes()),
{
    encode_utf8_valid_utf8(s@);
}

/// The part of `s` between the byte offsets `lo` and `hi`.
pub fn str_slice<'a>(s: &'a str, lo: usize, hi: usize) -> (r: &'a str)
    requires
        lo <= hi <= s.spec_bytes().len(),
        is_char_boundary(s.spec_bytes(), lo as int),
        is_char_boundary(s.spec_bytes(), hi as int),
    ensures
        r.spec_bytes() == s.spec_bytes().subrange(lo as int, hi as int),
{
    proof {
        lemma_str_valid(s);
        lemma_boundary_in_prefix(s.spec_bytes(), hi as int, lo as int);
    }
    let (head, _tail) = s.split_at(hi);
    let (_skipped, mid) = head.split_at(lo);
    assert(mid.spec_bytes() =~= s.spec_bytes().subrange(lo as int, hi as int));
    mid
}

/// Appends `piece` to `out`; the bytes of `out` grow by the bytes of `piece`.
pub fn append_str(out: &mut String, piece: &str)
    ensures
        text_bytes(*final(out)) == text_bytes(*old(out)) + piece.spec_bytes(),
{
    out.append(piece);
    proof {
        lemma_encode_concat(old(out)@, piece@);
    }
}


/// The characters that `char::is_whitespace` accepts among ASCII:
/// tab, line feed, vertical tab, form feed, carriage return and space.
pub open spec fn is_ascii_space(b: u8) -> bool {
    (9 <= b <= 13) || b == 32
}

/// The three-byte UTF-8 encodings of White_Space characters:
/// U+1680, U+2000..=U+200A, U+2028, U+2029, U+202F, U+205F and U+3000.
pub open spec fn is_wide_space(a: u8, b: u8, c: u8) -> bool {
    ||| (a == 0xE1 && b == 0x9A && c == 0x80)
    ||| (a == 0xE2 && b == 0x80 && ((0x80 <= c <= 0x8A) || c == 0xA8 || c == 0xA9 || c == 0xAF))
    ||| (a == 0xE2 && b == 0x81 && c == 0x9F)
    ||| (a == 0xE3 && b == 0x80 && c == 0x80)
}

/// The byte length of a White_Space character encoded at `i` and ending by `hi`,
/// or 0 when `s[i..hi]` does not start with one. Besides the ASCII ones these
/// are U+0085 and U+00A0 (two bytes) and the characters of `is_wide_space`.
pub open spec fn space_width_at(s: Seq<u8>, i: int, hi: int) -> int {
    if !(0 <= i < hi && hi <= s.len()) {
        0
    } else if is_ascii_space(s[i]) {
        1
    } else if i + 2 <= hi && s[i] == 0xC2 && (s[i + 1] == 0x85 || s[i + 1] == 0xA0) {
        2
    } else if i + 3 <= hi && is_wide_space(s[i], s[i + 1], s[i + 2]) {
        3
    } else {
        0
    }
}

/// The byte length of a White_Space character whose encoding ends at `j`
/// and starts at or after `lo`, or 0 when there is none.
pub open spec fn space_width_before(s: Seq<u8>, lo: int, j: int) -> int {
    if !(0 <= lo < j && j <= s.len()) {
        0
    } else if is_ascii_space(s[j - 1]) {
        1
    } else if lo <= j - 2 && s[j - 2] == 0xC2 && (s[j - 1] == 0x85 || s[j - 1] == 0xA0) {
        2
    } else if lo <= j - 3 && is_wide_space(s[j - 3], s[j - 2], s[j - 1]) {
        3
    } else {
        0
    }
}

/// Where `s[i..hi]` begins once its leading whitespace is removed.
pub open spec fn trim_start_at(s: Seq<u8>, i: int, hi: int) -> int
    decreases hi - i,
{
    let w = space_width_at(s, i, hi);
    if w > 0 {
        trim_start_at(s, i + w, hi)
    } else {
        i
    }
}

/// Where `s[lo..j]` ends once its trailing whitespace is removed.
pub open spec fn trim_end_at(s: Seq<u8>, lo: int, j: int) -> int
    decreases j - lo,
{
    let w = space_width_before(s, lo, j);
    if w > 0 {
        trim_end_at(s, lo, j - w)
    } else {
        j
    }
}

/// `s[lo..hi]` without its leading and trailing whitespace, as the pair of offsets
/// that delimit what is left (`str::trim`).
pub open spec fn trim_bounds(s: Seq<u8>, lo: int, hi: int) -> (int, int) {
    let a = trim_start_at(s, lo, hi);
    (a, trim_end_at(s, a, hi))
}

pub proof fn lemma_trim_start_range(s: Seq<u8>, i: int, hi: int)
    requires
        0 <= i <= hi <= s.len(),
    ensures
        i <= trim_start_at(s, i, hi) <= hi,
    decreases hi - i,
{
    let w = space_width_at(s, i, hi);
    if w > 0 {
        lemma_trim_start_range(s, i + w, hi);
    }
}

pub proof fn lemma_trim_end_range(s: Seq<u8>, lo: int, j: int)
    requires
        0 <= lo <= j <= s.len(),
    ensures
        lo <= trim_end_at(s, lo, j) <= j,
    decreases j - lo,
{
    let w = space_width_before(s, lo, j);
    if w > 0 {
        lemma_trim_end_range(s, lo, j - w);
    }
}

/// Trimming from a character boundary stops on a character boundary.
pub proof fn lemma_trim_start_boundary(s: Seq<u8>, i: int, hi: int)
    requires
        valid_utf8(s),
        0 <= i <= hi <= s.len(),
        is_char_boundary(s, i),
    ensures
        is_char_boundary(s, trim_start_at(s, i, hi)),
    decreases hi - i,
{
    let w = space_width_at(s, i, hi);
    if w > 0 {
        lemma_next_boundary(s, i);
        let t = s.subrange(i, s.len() as int);
        assert(t[0] == s[i]);
        assert(length_of_first_scalar(t) == w);
        lemma_trim_start_boundary(s, i + w, hi);
    }
}

/// Trimming back from a boundary stops at the start of a whitespace character or
/// where it began, in both cases a character boundary.
pub proof fn lemma_trim_end_boundary(s: Seq<u8>, lo: int, j: int)
    requires
        valid_utf8(s),
        0 <= lo <= j <= s.len(),
        is_char_boundary(s, j),
    ensures
        is_char_boundary(s, trim_end_at(s, lo, j)),
    decreases j - lo,
{
    let w = space_width_before(s, lo, j);
    if w > 0 {
        let k = j - w;
        is_char_boundary_start_end_of_seq(s);
        is_char_boundary_iff_not_is_continuation_byte(s, k);
        lemma_trim_end_boundary(s, lo, k);
    }
}


/// The width of the whitespace character at `i`, as `space_width_at` defines it.
pub fn space_width(b: &[u8], i: usize, hi: usize) -> (w: usize)
    requires
        i < hi <= b@.len(),
    ensures
        w == space_width_at(b@, i as int, hi as int),
        w <= 3,
{
    let c = b[i];
    if (9 <= c && c <= 13) || c == 32 {
        1
    } else if hi - i >= 2 && c == 0xC2 && (b[i + 1] == 0x85 || b[i + 1] == 0xA0) {
        2
    } else if hi - i >= 3 && wide_space(b[i], b[i + 1], b[i + 2]) {
        3
    } else {
        0
    }
}

fn wide_space(a: u8, b: u8, c: u8) -> (r: bool)
    ensures
        r == is_wide_space(a, b, c),
{
    (a == 0xE1 && b == 0x9A && c == 0x80) || (a == 0xE2 && b == 0x80 && ((0x80 <= c && c
        <= 0x8A) || c == 0xA8 || c == 0xA9 || c == 0xAF)) || (a == 0xE2 && b == 0x81 && c
        == 0x9F) || (a == 0xE3 && b == 0x80 && c == 0x80)
}

fn space_width_back(b: &[u8], lo: usize, j: usize) -> (w: usize)
    requires
        lo < j <= b@.len(),
    ensures
        w == space_width_before(b@, lo as int, j as int),
        w <= 3,
{
    let c = b[j - 1];
    if (9 <= c && c <= 13) || c == 32 {
        1
    } else if j - lo >= 2 && b[j - 2] == 0xC2 && (c == 0x85 || c == 0xA0) {
        2
    } else if j - lo >= 3 && wide_space(b[j - 3], b[j - 2], c) {
        3
    } else {
        0
    }
}

/// The offsets that delimit `b[lo..hi]` once trimmed (`str::trim`).
pub fn trim_range(b: &[u8], lo: usize, hi: usize) -> (r: (usize, usize))
    requires
        lo <= hi <= b@.len(),
    ensures
        r.0 == trim_bounds(b@, lo as int, hi as int).0,
        r.1 == trim_bounds(b@, lo as int, hi as int).1,
        lo <= r.0 <= r.1 <= hi,
{
    let mut a = lo;
    while a < hi
        invariant
            lo <= a <= hi <= b@.len(),
            trim_start_at(b@, lo as int, hi as int) == trim_start_at(b@, a as int, hi as int),
        ensures
            lo <= a <= hi,
            trim_start_at(b@, lo as int, hi as int) == a,
        decreases hi - a,
    {
        let w = space_width(b, a, hi);
        if w == 0 {
            break;
        }
        a = a + w;
    }
    proof {
        lemma_trim_start_range(b@, lo as int, hi as int);
    }
    let mut z = hi;
    while z > a
        invariant
            a <= z <= hi <= b@.len(),
            trim_end_at(b@, a as int, hi as int) == trim_end_at(b@, a as int, z as int),
        ensures
            a <= z <= hi,
            trim_end_at(b@, a as int, hi as int) == z,
        decreases z - a,
    {
        let w = space_width_back(b, a, z);
        if w == 0 {
            break;
        }
        z = z - w;
    }
    proof {
        lemma_trim_end_range(b@, a as int, hi as int);
    }
    (a, z)
}


/// The decimal digit `d` as a character.
pub open spec fn digit_char(d: int) -> char {
    (48 + d) as char
}

/// The decimal notation of `n`, without leading zeros.
pub open spec fn decimal(n: nat) -> Seq<char>
    decreases n,
{
    if n < 10 {
        seq![digit_char(n as int)]
    } else {
        decimal(n / 10).push(digit_char((n % 10) as int))
    }
}

/// Appends the decimal notation of `n` to `out`.
pub fn push_decimal(out: &mut String, n: u64)
    ensures
        final(out)@ == old(out)@ + decimal(n as nat),
    decreases n,
{
    if n >= 10 {
        push_decimal(out, n / 10);
    }
    let d = (n % 10) as usize;
    let digits = "0123456789";
    proof {
        reveal_strlit("0123456789");
    }
    let piece = digits.substring_char(d, d + 1);
    assert(digits@[d as int] == digit_char(d as int));
    let ghost mid = out@;
    out.append(piece);
    assert(piece@ =~= seq![digit_char(d as int)]);
    if n >= 10 {
        assert(out@ =~= old(out)@ + decimal(n as nat));
    } else {
        assert(out@ =~= old(out)@ + decimal(n as nat));
    }
}

/// Appends the decimal notation of `n` to `out`, as bytes.
pub fn append_decimal(out: &mut String, n: u64)
    ensures
        text_bytes(*final(out)) == text_bytes(*old(out)) + encode_utf8(decimal(n as nat)),
{
    push_decimal(out, n);
    proof {
        lemma_encode_concat(old(out)@, decimal(n as nat));
    }
}

} // verus!
