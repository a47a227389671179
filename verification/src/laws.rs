//! Properties of the library that span several functions or every input.
use vstd::prelude::*;

use crate::io_ops::{
    blocks, bom, crlf, first_match, formatted, import_all, import_one, lf, lf_from, nl_from,
    normalized_block, selected_upto, selection, ConflictPolicy, ImportOutcome,
};
use crate::parser::{lemma_skip_blanks, parse_designs, parse_from, same_identity, DesignView, Parsed};
use crate::scan::{
    block_end, brace_close, first_offset, lemma_brace_close_range, lemma_unquote_end, skip_blanks,
    unquote, Quoted, CR, LF, QUOTE,
};
use crate::summary::{
    all_assignments, authority_key, design_key_key, ethic_key, first_assignment, found_value,
    government_key, key_of, origin_key, summary_of, ScanState,
};
use crate::text::trim_bounds;

verus! {

/// Each design parsed from `s` starting at `pos` lies in `s` at or after `pos`, its
/// text is exactly the bytes between its offsets and opens with a quote, and the
/// designs follow one another without overlapping.
pub open spec fn designs_are_slices(s: Seq<u8>, pos: int, ds: Seq<DesignView>) -> bool {
    &&& forall|i: int|
        0 <= i < ds.len() ==> {
            &&& pos <= #[trigger] ds[i].start < ds[i].end <= s.len()
            &&& ds[i].raw == s.subrange(ds[i].start, ds[i].end)
            &&& s[ds[i].start] == QUOTE
        }
    &&& forall|i: int, j: int| 0 <= i < j < ds.len() ==> #[trigger] ds[i].end <= #[trigger] ds[j].start
}

proof fn lemma_parse_from_slices(s: Seq<u8>, pos: int)
    requires
        0 <= pos,
    ensures
        parse_from(s, pos) matches Parsed::Designs(ds) ==> designs_are_slices(s, pos, ds),
    decreases s.len() - pos,
{
    if 0 <= pos < s.len() && s[pos] == QUOTE {
        match unquote(s, pos + 1, s.len() as int) {
            Quoted::Closed(name, after) => {
                lemma_unquote_end(s, pos + 1, s.len() as int);
                lemma_skip_blanks(s, after);
                let p2 = skip_blanks(s, after);
                if p2 < s.len() && s[p2] == crate::scan::EQUALS {
                    lemma_skip_blanks(s, p2 + 1);
                    let p3 = skip_blanks(s, p2 + 1);
                    if p3 < s.len() && s[p3] == crate::scan::OPEN_BRACE {
                        lemma_brace_close_range(s, p3, 0, false, false);
                        match brace_close(s, p3, 0, false, false) {
                            Some(close) => {
                                let end = block_end(s, close + 1);
                                assert(close + 1 <= end <= s.len());
                                lemma_skip_blanks(s, end);
                                let next = skip_blanks(s, end);
                                lemma_parse_from_slices(s, next);
                                let raw = s.subrange(pos, end);
                                match parse_from(s, next) {
                                    Parsed::Designs(rest) => {
                                        if summary_of(raw) is Some && !(key_of(raw) is Broken) {
                                            let ds = parse_from(s, pos)->Designs_0;
                                            assert(ds.len() == rest.len() + 1);
                                            assert(forall|k: int|
                                                0 < k < ds.len() ==> ds[k] == rest[k - 1]);
                                            assert forall|i: int, j: int|
                                                0 <= i < j < ds.len() implies #[trigger] ds[i].end
                                                <= #[trigger] ds[j].start by {
                                                if i > 0 {
                                                    assert(rest[i - 1].end <= rest[j - 1].start);
                                                } else {
                                                    assert(next <= rest[j - 1].start);
                                                }
                                            }
                                            assert forall|i: int| 0 <= i < ds.len() implies {
                                                &&& pos <= #[trigger] ds[i].start < ds[i].end
                                                    <= s.len()
                                                &&& ds[i].raw == s.subrange(ds[i].start, ds[i].end)
                                                &&& s[ds[i].start] == QUOTE
                                            } by {
                                                if i > 0 {
                                                    assert(rest[i - 1].start >= next);
                                                }
                                            }
                                        }
                                    },
                                    _ => {},
                                }
                            },
                            None => {},
                        }
                    }
                }
            },
            _ => {},
        }
    }
}

/// Every design read from a file is exactly the file's bytes between its start and
/// end offsets, opens with a quote, and the designs come in file order without
/// overlapping.
pub proof fn law_designs_are_exact_slices(s: Seq<u8>)
    requires
        parse_designs(s) is Designs,
    ensures
        designs_are_slices(s, 0, parse_designs(s)->Designs_0),
{
    let start = first_offset(s);
    if s.len() >= 3 {
        lemma_skip_blanks(s, 3);
    }
    lemma_skip_blanks(s, 0);
    lemma_parse_from_slices(s, start);
}


/// Every line break is CRLF: each LF follows a CR and each CR comes before an LF.
pub open spec fn crlf_only(s: Seq<u8>) -> bool {
    forall|i: int|
        0 <= i < s.len() ==> (#[trigger] s[i] == LF ==> i > 0 && s[i - 1] == CR) && (s[i] == CR
            ==> i + 1 < s.len() && s[i + 1] == LF)
}

/// No carriage return at all.
pub open spec fn no_cr(s: Seq<u8>) -> bool {
    forall|i: int| 0 <= i < s.len() ==> #[trigger] s[i] != CR
}

proof fn lemma_crlf_only_concat(a: Seq<u8>, b: Seq<u8>)
    requires
        crlf_only(a),
        crlf_only(b),
    ensures
        crlf_only(a + b),
{
    let c = a + b;
    assert forall|i: int| 0 <= i < c.len() implies (#[trigger] c[i] == LF ==> i > 0 && c[i - 1]
        == CR) && (c[i] == CR ==> i + 1 < c.len() && c[i + 1] == LF) by {
        if i < a.len() {
            assert(c[i] == a[i]);
            if a[i] == LF {
                assert(c[i - 1] == a[i - 1]);
            }
            if a[i] == CR {
                assert(c[i + 1] == a[i + 1]);
            }
        } else {
            let k = i - a.len();
            assert(c[i] == b[k]);
            if b[k] == LF {
                assert(k > 0 && b[k - 1] == CR);
                assert(c[i - 1] == b[k - 1]);
            }
            if b[k] == CR {
                assert(c[i + 1] == b[k + 1]);
            }
        }
    }
}

proof fn lemma_no_cr_concat(a: Seq<u8>, b: Seq<u8>)
    requires
        no_cr(a),
        no_cr(b),
    ensures
        no_cr(a + b),
{
    let c = a + b;
    assert forall|i: int| 0 <= i < c.len() implies #[trigger] c[i] != CR by {
        if i < a.len() {
            assert(c[i] == a[i]);
        } else {
            assert(c[i] == b[i - a.len()]);
        }
    }
}

pub(crate) proof fn lemma_lf_from_no_cr(t: Seq<u8>, i: int)
    ensures
        no_cr(lf_from(t, i)),
    decreases t.len() - i,
{
    if 0 <= i < t.len() {
        if t[i] == CR && i + 1 < t.len() && t[i + 1] == LF {
            lemma_lf_from_no_cr(t, i + 2);
            lemma_no_cr_concat(seq![LF], lf_from(t, i + 2));
        } else if t[i] == CR {
            lemma_lf_from_no_cr(t, i + 1);
            lemma_no_cr_concat(seq![LF], lf_from(t, i + 1));
        } else {
            lemma_lf_from_no_cr(t, i + 1);
            lemma_no_cr_concat(seq![t[i]], lf_from(t, i + 1));
        }
    }
}

pub(crate) proof fn lemma_nl_from_breaks(t: Seq<u8>, i: int)
    requires
        no_cr(t),
    ensures
        crlf_only(nl_from(t, i, crlf())),
        no_cr(nl_from(t, i, lf())),
    decreases t.len() - i,
{
    if 0 <= i < t.len() {
        lemma_nl_from_breaks(t, i + 1);
        if t[i] == LF {
            assert(crlf_only(crlf()));
            lemma_crlf_only_concat(crlf(), nl_from(t, i + 1, crlf()));
            lemma_no_cr_concat(lf(), nl_from(t, i + 1, lf()));
        } else {
            assert(t[i] != CR);
            assert(crlf_only(seq![t[i]]));
            lemma_crlf_only_concat(seq![t[i]], nl_from(t, i + 1, crlf()));
            lemma_no_cr_concat(seq![t[i]], nl_from(t, i + 1, lf()));
        }
    }
}

pub(crate) proof fn lemma_normalized_breaks(t: Seq<u8>)
    ensures
        crlf_only(normalized_block(t, crlf())),
        no_cr(normalized_block(t, lf())),
{
    let (lo, hi) = trim_bounds(t, 0, t.len() as int);
    let u = lf_from(t.subrange(lo, hi), 0);
    lemma_lf_from_no_cr(t.subrange(lo, hi), 0);
    lemma_nl_from_breaks(u, 0);
}

proof fn lemma_blocks_breaks(raws: Seq<Seq<u8>>)
    ensures
        crlf_only(blocks(raws, crlf())),
        no_cr(blocks(raws, lf())),
    decreases raws.len(),
{
    if raws.len() > 0 {
        let prev = raws.drop_last();
        lemma_blocks_breaks(prev);
        lemma_normalized_breaks(raws.last());
        assert(crlf_only(crlf()));
        assert(no_cr(lf()));
        assert(crlf_only(Seq::<u8>::empty()));
        assert(no_cr(Seq::<u8>::empty()));
        let sep_c = if prev.len() > 0 {
            crlf()
        } else {
            Seq::<u8>::empty()
        };
        let sep_l = if prev.len() > 0 {
            lf()
        } else {
            Seq::<u8>::empty()
        };
        lemma_crlf_only_concat(blocks(prev, crlf()), sep_c);
        lemma_crlf_only_concat(blocks(prev, crlf()) + sep_c, normalized_block(raws.last(), crlf()));
        lemma_crlf_only_concat(
            blocks(prev, crlf()) + sep_c + normalized_block(raws.last(), crlf()),
            crlf(),
        );
        lemma_no_cr_concat(blocks(prev, lf()), sep_l);
        lemma_no_cr_concat(blocks(prev, lf()) + sep_l, normalized_block(raws.last(), lf()));
        lemma_no_cr_concat(blocks(prev, lf()) + sep_l + normalized_block(raws.last(), lf()), lf());
    }
}

/// Files written with CRLF line breaks have CRLF as their only line break, and
/// files written with LF line breaks hold no carriage return, whatever the designs'
/// own line breaks were.
pub proof fn law_clean_line_breaks(raws: Seq<Seq<u8>>, with_bom: bool)
    ensures
        crlf_only(formatted(raws, crlf(), with_bom)),
        no_cr(formatted(raws, lf(), with_bom)),
{
    lemma_blocks_breaks(raws);
    let head = if with_bom {
        bom()
    } else {
        Seq::<u8>::empty()
    };
    assert(crlf_only(head));
    assert(no_cr(head));
    lemma_crlf_only_concat(head, blocks(raws, crlf()));
    lemma_no_cr_concat(head, blocks(raws, lf()));
}

/// A file with at least one design ends with its line break, and consecutive
/// blocks are separated by a blank line: each block is followed by the line break,
/// and one more comes before the next block.
pub proof fn law_block_layout(raws: Seq<Seq<u8>>, nl: Seq<u8>)
    requires
        raws.len() > 0,
    ensures
        blocks(raws, nl).len() >= nl.len(),
        blocks(raws, nl).subrange(blocks(raws, nl).len() - nl.len(), blocks(raws, nl).len() as int)
            == nl,
        raws.len() > 1 ==> blocks(raws, nl) == blocks(raws.drop_last(), nl) + nl
            + normalized_block(raws.last(), nl) + nl,
{
    let b = blocks(raws, nl);
    let prefix = blocks(raws.drop_last(), nl) + (if raws.drop_last().len() > 0 {
        nl
    } else {
        Seq::<u8>::empty()
    }) + normalized_block(raws.last(), nl);
    assert(b == prefix + nl);
    assert(b.subrange(b.len() - nl.len(), b.len() as int) =~= nl);
}


/// Two designs are the same empire in either order.
pub proof fn law_identity_is_symmetric(a: DesignView, b: DesignView)
    ensures
        same_identity(a, b) == same_identity(b, a),
{
}

/// Every design is the same empire as itself.
pub proof fn law_identity_is_reflexive(a: DesignView)
    ensures
        same_identity(a, a),
{
}

/// "Append anyway" adds every incoming design after the target's designs, in order,
/// and neither skips nor replaces any.
pub proof fn law_append_keeps_everything(targets: Seq<DesignView>, incoming: Seq<DesignView>)
    ensures
        import_all(targets, incoming, ConflictPolicy::Append).designs == targets + incoming,
        import_all(targets, incoming, ConflictPolicy::Append).imported == incoming.len(),
        import_all(targets, incoming, ConflictPolicy::Append).replaced == 0,
        import_all(targets, incoming, ConflictPolicy::Append).skipped == 0,
    decreases incoming.len(),
{
    if incoming.len() == 0 {
        assert(targets + incoming =~= targets);
    } else {
        law_append_keeps_everything(targets, incoming.drop_last());
        assert(targets + incoming.drop_last() + seq![incoming.last()] =~= targets + incoming);
        assert((targets + incoming.drop_last()).push(incoming.last()) =~= targets + incoming);
    }
}

/// "Skip duplicates" never changes a design of the target file and never replaces:
/// the target's designs stay first, as they were, and each incoming design is either
/// appended or skipped.
pub proof fn law_skip_keeps_target(targets: Seq<DesignView>, incoming: Seq<DesignView>)
    ensures
        import_all(targets, incoming, ConflictPolicy::Skip).replaced == 0,
        import_all(targets, incoming, ConflictPolicy::Skip).designs.len() >= targets.len(),
        import_all(targets, incoming, ConflictPolicy::Skip).designs.subrange(0, targets.len() as int)
            == targets,
    decreases incoming.len(),
{
    if incoming.len() == 0 {
        assert(targets.subrange(0, targets.len() as int) =~= targets);
    } else {
        law_skip_keeps_target(targets, incoming.drop_last());
        let st = import_all(targets, incoming.drop_last(), ConflictPolicy::Skip);
        let nx = import_one(st, incoming.last(), ConflictPolicy::Skip);
        assert(nx.designs.subrange(0, targets.len() as int) =~= st.designs.subrange(
            0,
            targets.len() as int,
        ));
    }
}

/// Under "Skip duplicates" an incoming design that is the same empire as one already
/// present is skipped, and one that matches none is appended.
pub proof fn law_skip_decides_by_identity(st: ImportOutcome, d: DesignView)
    ensures
        first_match(st.designs, d, 0) is Some ==> import_one(st, d, ConflictPolicy::Skip)
            == (ImportOutcome { skipped: st.skipped + 1, ..st }),
        first_match(st.designs, d, 0) is None ==> import_one(st, d, ConflictPolicy::Skip).designs
            == st.designs.push(d),
{
}

/// "Replace duplicates" replaces each position of the file at most once: the number
/// of replacements is the number of distinct positions replaced, all of them
/// positions of the resulting file, and the file grows only by appended designs.
pub proof fn law_replace_once_per_design(targets: Seq<DesignView>, incoming: Seq<DesignView>)
    ensures
        import_all(targets, incoming, ConflictPolicy::Replace).replaced_at.finite(),
        import_all(targets, incoming, ConflictPolicy::Replace).replaced_at.len() == import_all(
            targets,
            incoming,
            ConflictPolicy::Replace,
        ).replaced,
        forall|k: usize| #[trigger]
            import_all(targets, incoming, ConflictPolicy::Replace).replaced_at.contains(k) ==> k
                < import_all(targets, incoming, ConflictPolicy::Replace).designs.len(),
        import_all(targets, incoming, ConflictPolicy::Replace).designs.len() == targets.len()
            + import_all(targets, incoming, ConflictPolicy::Replace).imported,
    decreases incoming.len(),
{
    crate::io_ops::lemma_import_counts(targets, incoming, ConflictPolicy::Replace);
    if incoming.len() > 0 {
        law_replace_once_per_design(targets, incoming.drop_last());
        let st = import_all(targets, incoming.drop_last(), ConflictPolicy::Replace);
        crate::io_ops::lemma_first_match_range(st.designs, incoming.last(), 0);
    }
}


proof fn lemma_no_match_means_distinct(ds: Seq<DesignView>, d: DesignView, i: int)
    requires
        0 <= i,
        first_match(ds, d, i) is None,
    ensures
        forall|k: int| i <= k < ds.len() ==> !same_identity(#[trigger] ds[k], d),
    decreases ds.len() - i,
{
    if i < ds.len() {
        lemma_no_match_means_distinct(ds, d, i + 1);
    }
}

/// "Skip duplicates" adds no duplicate: each design appended after the target's
/// designs is a different empire from every design before it.
pub proof fn law_skip_adds_no_duplicates(targets: Seq<DesignView>, incoming: Seq<DesignView>)
    ensures
        ({
            let ds = import_all(targets, incoming, ConflictPolicy::Skip).designs;
            forall|i: int, j: int|
                0 <= i < j < ds.len() && targets.len() <= j ==> !same_identity(
                    #[trigger] ds[i],
                    #[trigger] ds[j],
                )
        }),
    decreases incoming.len(),
{
    law_skip_keeps_target(targets, incoming);
    if incoming.len() > 0 {
        law_skip_adds_no_duplicates(targets, incoming.drop_last());
        law_skip_keeps_target(targets, incoming.drop_last());
        let st = import_all(targets, incoming.drop_last(), ConflictPolicy::Skip);
        let d = incoming.last();
        let ds = import_all(targets, incoming, ConflictPolicy::Skip).designs;
        if first_match(st.designs, d, 0) is None {
            lemma_no_match_means_distinct(st.designs, d, 0);
            assert(ds == st.designs.push(d));
            assert forall|i: int, j: int|
                0 <= i < j < ds.len() && targets.len() <= j implies !same_identity(
                    #[trigger] ds[i],
                    #[trigger] ds[j],
                ) by {
                if j == ds.len() - 1 {
                    assert(ds[j] == d);
                    assert(ds[i] == st.designs[i]);
                } else {
                    assert(ds[i] == st.designs[i]);
                    assert(ds[j] == st.designs[j]);
                }
            }
        }
    }
}

/// A design's authority, government and origin are each the value of the first
/// assignment of that field on a line directly inside the block (brace depth 1),
/// and its ethics are the values of all `ethic` assignments there, in order.
pub proof fn law_summary_fields_are_direct_assignments(s: Seq<u8>)
    requires
        summary_of(s) is Some,
    ensures
        summary_of(s)->Some_0.authority == found_value(first_assignment(s, 0, 0, authority_key())),
        summary_of(s)->Some_0.government == found_value(
            first_assignment(s, 0, 0, government_key()),
        ),
        summary_of(s)->Some_0.origin == found_value(first_assignment(s, 0, 0, origin_key())),
        summary_of(s)->Some_0.ethics == all_assignments(s, 0, 0, ethic_key()),
{
    reveal(summary_of);
    let st = ScanState {
        summary: crate::summary::empty_summary(),
        depth: 0,
        pending: None,
        active: None,
    };
    crate::summary::lemma_scan_fields(s, 0, st);
    assert(Seq::<Seq<u8>>::empty() + all_assignments(s, 0, 0, ethic_key()) =~= all_assignments(
        s,
        0,
        0,
        ethic_key(),
    ));
}

/// A design's key is the value of the first `key` assignment on a line directly
/// inside the block.
pub proof fn law_key_is_first_direct_assignment(s: Seq<u8>)
    ensures
        key_of(s) == first_assignment(s, 0, 0, design_key_key()),
{
    reveal(key_of);
    crate::summary::lemma_key_scan_first(s, 0, 0);
}

proof fn lemma_first_match_is_least(ds: Seq<DesignView>, d: DesignView, j: int, i: int)
    requires
        0 <= j <= i < ds.len(),
        same_identity(ds[i], d),
        forall|k: int| 0 <= k < i ==> !same_identity(#[trigger] ds[k], d),
    ensures
        first_match(ds, d, j) == Some(i),
    decreases i - j,
{
    if j < i {
        lemma_first_match_is_least(ds, d, j + 1, i);
    }
}

proof fn lemma_first_match_none(ds: Seq<DesignView>, d: DesignView, j: int)
    requires
        0 <= j,
        forall|k: int| 0 <= k < ds.len() ==> !same_identity(#[trigger] ds[k], d),
    ensures
        first_match(ds, d, j) is None,
    decreases ds.len() - j,
{
    if j < ds.len() {
        lemma_first_match_none(ds, d, j + 1);
    }
}

/// Under "Replace duplicates", an incoming design whose first match in the file so
/// far stands at a position not yet replaced takes that position: the file keeps its
/// length, holds the incoming design at that position and every other design where
/// it was, and one more replacement is counted.
pub proof fn law_replace_takes_the_first_match(
    targets: Seq<DesignView>,
    incoming: Seq<DesignView>,
    d: DesignView,
    i: int,
)
    requires
        0 <= i < import_all(targets, incoming, ConflictPolicy::Replace).designs.len(),
        same_identity(import_all(targets, incoming, ConflictPolicy::Replace).designs[i], d),
        forall|k: int|
            0 <= k < i ==> !same_identity(
                #[trigger] import_all(targets, incoming, ConflictPolicy::Replace).designs[k],
                d,
            ),
        !import_all(targets, incoming, ConflictPolicy::Replace).replaced_at.contains(i as usize),
    ensures
        ({
            let before = import_all(targets, incoming, ConflictPolicy::Replace);
            let after = import_all(targets, incoming.push(d), ConflictPolicy::Replace);
            &&& after.designs.len() == before.designs.len()
            &&& after.designs[i] == d
            &&& forall|k: int|
                0 <= k < before.designs.len() && k != i ==> #[trigger] after.designs[k]
                    == before.designs[k]
            &&& after.replaced == before.replaced + 1
            &&& after.imported == before.imported
            &&& after.skipped == before.skipped
        }),
{
    let before = import_all(targets, incoming, ConflictPolicy::Replace);
    assert(incoming.push(d).drop_last() =~= incoming);
    lemma_first_match_is_least(before.designs, d, 0, i);
}

/// Under "Replace duplicates", an incoming design whose first match in the file so
/// far stands at a position already replaced is skipped: the file stays as it is.
pub proof fn law_replace_skips_a_replaced_match(
    targets: Seq<DesignView>,
    incoming: Seq<DesignView>,
    d: DesignView,
    i: int,
)
    requires
        0 <= i < import_all(targets, incoming, ConflictPolicy::Replace).designs.len(),
        same_identity(import_all(targets, incoming, ConflictPolicy::Replace).designs[i], d),
        forall|k: int|
            0 <= k < i ==> !same_identity(
                #[trigger] import_all(targets, incoming, ConflictPolicy::Replace).designs[k],
                d,
            ),
        import_all(targets, incoming, ConflictPolicy::Replace).replaced_at.contains(i as usize),
    ensures
        ({
            let before = import_all(targets, incoming, ConflictPolicy::Replace);
            let after = import_all(targets, incoming.push(d), ConflictPolicy::Replace);
            &&& after.designs == before.designs
            &&& after.skipped == before.skipped + 1
            &&& after.replaced == before.replaced
            &&& after.imported == before.imported
        }),
{
    let before = import_all(targets, incoming, ConflictPolicy::Replace);
    assert(incoming.push(d).drop_last() =~= incoming);
    lemma_first_match_is_least(before.designs, d, 0, i);
}

/// Under any policy, an incoming design that matches no design of the file so far is
/// appended after all of them, and one more import is counted.
pub proof fn law_new_empire_is_appended(
    targets: Seq<DesignView>,
    incoming: Seq<DesignView>,
    d: DesignView,
    policy: ConflictPolicy,
)
    requires
        forall|k: int|
            0 <= k < import_all(targets, incoming, policy).designs.len() ==> !same_identity(
                #[trigger] import_all(targets, incoming, policy).designs[k],
                d,
            ),
    ensures
        ({
            let before = import_all(targets, incoming, policy);
            let after = import_all(targets, incoming.push(d), policy);
            &&& after.designs.len() == before.designs.len() + 1
            &&& after.designs[before.designs.len() as int] == d
            &&& forall|k: int|
                0 <= k < before.designs.len() ==> #[trigger] after.designs[k] == before.designs[k]
            &&& after.imported == before.imported + 1
            &&& after.replaced == before.replaced
            &&& after.skipped == before.skipped
        }),
{
    let before = import_all(targets, incoming, policy);
    assert(incoming.push(d).drop_last() =~= incoming);
    lemma_first_match_none(before.designs, d, 0);
}

/// The positions of the designs in the selection: the selected positions below `n`,
/// one for each design, increasing.
proof fn lemma_selection_positions(es: Seq<DesignView>, sel: Set<usize>, n: int) -> (idx: Seq<int>)
    requires
        0 <= n <= es.len(),
    ensures
        idx.len() == selected_upto(es, sel, n).len(),
        forall|k: int|
            0 <= k < idx.len() ==> 0 <= #[trigger] idx[k] < n && sel.contains(idx[k] as usize)
                && selected_upto(es, sel, n)[k] == es[idx[k]],
        forall|k: int, l: int| 0 <= k < l < idx.len() ==> #[trigger] idx[k] < #[trigger] idx[l],
        forall|p: usize|
            p < n && #[trigger] sel.contains(p) ==> exists|k: int|
                0 <= k < idx.len() && #[trigger] idx[k] == p as int,
    decreases n,
{
    if n == 0 {
        Seq::empty()
    } else {
        let prev = lemma_selection_positions(es, sel, n - 1);
        if sel.contains((n - 1) as usize) {
            let idx = prev.push(n - 1);
            assert forall|p: usize| p < n && #[trigger] sel.contains(p) implies exists|k: int|
                0 <= k < idx.len() && #[trigger] idx[k] == p as int by {
                if p == n - 1 {
                    assert(idx[prev.len() as int] == p as int);
                } else {
                    let k = choose|k: int| 0 <= k < prev.len() && #[trigger] prev[k] == p as int;
                    assert(idx[k] == p as int);
                }
            }
            assert forall|k: int| 0 <= k < idx.len() implies 0 <= #[trigger] idx[k] < n
                && sel.contains(idx[k] as usize) && selected_upto(es, sel, n)[k] == es[idx[k]] by {
                if k < prev.len() {
                    assert(idx[k] == prev[k]);
                }
            }
            idx
        } else {
            assert forall|p: usize| p < n && #[trigger] sel.contains(p) implies exists|k: int|
                0 <= k < prev.len() && #[trigger] prev[k] == p as int by {
                assert(p != n - 1);
            }
            prev
        }
    }
}

/// `out` is the designs of `es` at the positions `idx`: selected positions of `es`,
/// increasing, and among them every selected position of `es`.
pub open spec fn picks(es: Seq<DesignView>, sel: Set<usize>, out: Seq<DesignView>, idx: Seq<int>) -> bool {
    &&& idx.len() == out.len()
    &&& forall|k: int|
        0 <= k < idx.len() ==> 0 <= #[trigger] idx[k] < es.len() && sel.contains(idx[k] as usize)
            && out[k] == es[idx[k]]
    &&& forall|k: int, l: int| 0 <= k < l < idx.len() ==> #[trigger] idx[k] < #[trigger] idx[l]
    &&& forall|p: usize|
        p < es.len() && #[trigger] sel.contains(p) ==> exists|k: int|
            0 <= k < idx.len() && #[trigger] idx[k] == p as int
}

/// The selection is every design whose position is selected and below the number of
/// designs, in file order and nothing else: its designs stand at increasing selected
/// positions, and every selected position of the file has its design in it.
pub proof fn law_selection_is_every_selected_design(es: Seq<DesignView>, sel: Set<usize>)
    ensures
        exists|idx: Seq<int>| #[trigger] picks(es, sel, selection(es, sel), idx),
{
    let idx = lemma_selection_positions(es, sel, es.len() as int);
    assert(picks(es, sel, selection(es, sel), idx));
}

} // verus!
