//! Clearing gives a rendered document back: the output sections that the
//! renderer inserts are exactly what the sanitizer removes.
use vstd::prelude::*;
use crate::fence::{blocks_of, BlockView};
use crate::sanitize::{
    close_pat, find_from, find_marker, lemma_occurs_char, lemma_sanitized_clean, marker,
    marker_at, marker_colon, marker_len, removal, sanitized, step,
};
use crate::schedule::{
    assemble, fence_text, output_text, processed, render, span_break, spans_ok, lemma_scan_spans,
};
use crate::text::{occurs_at, ticks, trim_newlines};

verus! {

/// No line of the output begins with a fence.
pub open spec fn quiet(o: Seq<char>) -> bool {
    forall|m: int| !occurs_at(seq!['\n'] + o, close_pat(), m)
}

/// Every output given is quiet.
pub open spec fn quiet_slots(outs: Seq<Option<Seq<char>>>) -> bool {
    forall|k: int| 0 <= k < outs.len() ==> (#[trigger] outs[k] matches Some(o) ==> quiet(o))
}

/// The text holds no output marker, in either form.
pub open spec fn no_marker(s: Seq<char>) -> bool {
    forall|i: int| !marker_at(s, i)
}

/// Each block's span reads exactly as the renderer writes the block.
pub open spec fn canonical(s: Seq<char>, bs: Seq<BlockView>) -> bool {
    forall|k: int|
        0 <= k < bs.len() ==> s.subrange((#[trigger] bs[k]).start, bs[k].end) == fence_text(bs[k])
            + span_break(s, bs[k])
}

proof fn lemma_trim_newlines_prefix(o: Seq<char>)
    ensures
        trim_newlines(o).len() <= o.len(),
        trim_newlines(o) == o.subrange(0, trim_newlines(o).len() as int),
    decreases o.len(),
{
    if o.len() > 0 && o.last() == '\n' {
        lemma_trim_newlines_prefix(o.drop_last());
        assert(o.drop_last().subrange(0, trim_newlines(o).len() as int) =~= o.subrange(
            0,
            trim_newlines(o).len() as int,
        ));
    } else {
        assert(o.subrange(0, o.len() as int) =~= o);
    }
}

proof fn lemma_find_exact(s: Seq<char>, pat: Seq<char>, k: int, x: int)
    requires
        0 <= k <= x,
        occurs_at(s, pat, x),
        forall|m: int| k <= m < x ==> !occurs_at(s, pat, m),
    ensures
        find_from(s, pat, k) == Some(x),
    decreases x - k,
{
    if k < x {
        lemma_find_exact(s, pat, k + 1, x);
    }
}

proof fn lemma_find_marker_exact(s: Seq<char>, k: int, x: int)
    requires
        0 <= k <= x < s.len(),
        marker_at(s, x),
        forall|m: int| k <= m < x ==> !marker_at(s, m),
    ensures
        find_marker(s, k) == Some(x),
    decreases x - k,
{
    if k < x {
        lemma_find_marker_exact(s, k + 1, x);
    }
}

proof fn lemma_section_shape(a: Seq<char>, o: Seq<char>, b: Seq<char>)
    ensures
        ({
            let d = a + output_text(o) + b;
            let l = a.len() as int;
            let n = trim_newlines(o).len() as int;
            &&& n <= o.len()
            &&& d.len() == l + 20 + n + b.len()
            &&& output_text(o).len() == 20 + n
            &&& d[l] == '\n'
            &&& forall|k: int| 0 <= k < l ==> d[k] == a[k]
            &&& d.subrange(l + 1, l + 15) == marker()
            &&& d.subrange(l + 16 + n, l + 20 + n) == close_pat()
            &&& d[l + 16 + n] == '\n'
            &&& d.subrange(l + 15, l + 16 + n) == (seq!['\n'] + o).subrange(0, n + 1)
        }),
{
    let sec = output_text(o);
    let d = a + sec + b;
    let l = a.len() as int;
    let body = trim_newlines(o);
    let n = body.len() as int;
    lemma_trim_newlines_prefix(o);
    assert(sec.len() == 20 + n);
    assert(d.subrange(l + 1, l + 15) =~= marker());
    assert(d.subrange(l + 16 + n, l + 20 + n) =~= close_pat());
    assert(d.subrange(l + 15, l + 16 + n) =~= (seq!['\n'] + o).subrange(0, n + 1));
}

proof fn lemma_marker_first(d: Seq<char>, a: Seq<char>)
    requires
        no_marker(a),
        a.len() >= 1,
        a.last() == '`',
        d.len() > a.len(),
        d[a.len() as int] == '\n',
        forall|k: int| 0 <= k < a.len() ==> d[k] == a[k],
    ensures
        forall|m: int| 0 <= m < a.len() + 1 ==> !marker_at(d, m),
{
    let l = a.len() as int;
    assert forall|m: int| 0 <= m < l + 1 implies !occurs_at(d, marker(), m) by {
        if occurs_at(d, marker(), m) {
            if m + 14 <= l {
                assert(d.subrange(m, m + 14) =~= a.subrange(m, m + 14));
                assert(marker_at(a, m));
            } else if m == l {
                lemma_occurs_char(d, marker(), m, 0);
            } else if l - m == 10 {
                lemma_occurs_char(d, marker(), m, 9);
            } else {
                lemma_occurs_char(d, marker(), m, l - m);
            }
        }
    }
    assert forall|m: int| 0 <= m < l + 1 implies !occurs_at(d, marker_colon(), m) by {
        if occurs_at(d, marker_colon(), m) {
            if m + 15 <= l {
                assert(d.subrange(m, m + 15) =~= a.subrange(m, m + 15));
                assert(marker_at(a, m));
            } else if m == l {
                lemma_occurs_char(d, marker_colon(), m, 0);
            } else if l - m == 11 {
                lemma_occurs_char(d, marker_colon(), m, 10);
            } else {
                lemma_occurs_char(d, marker_colon(), m, l - m);
            }
        }
    }
}

proof fn lemma_close_first(d: Seq<char>, lo: int, j: int, o: Seq<char>)
    requires
        0 <= lo <= j < d.len(),
        d[j] == '\n',
        j - lo <= o.len() + 1,
        d.subrange(lo, j) == (seq!['\n'] + o).subrange(0, j - lo),
        quiet(o),
    ensures
        forall|m: int| lo <= m < j ==> !occurs_at(d, close_pat(), m),
{
    let t = seq!['\n'] + o;
    assert forall|m: int| lo <= m < j implies !occurs_at(d, close_pat(), m) by {
        if occurs_at(d, close_pat(), m) {
            if m + 4 <= j {
                assert(d.subrange(m, m + 4) =~= d.subrange(lo, j).subrange(m - lo, m - lo + 4));
                assert(d.subrange(m, m + 4) =~= t.subrange(m - lo, m - lo + 4));
                assert(occurs_at(t, close_pat(), m - lo));
            } else {
                lemma_occurs_char(d, close_pat(), m, j - m);
            }
        }
    }
}

/// The first output marker of `a + output_text(o) + b` is the one the
/// section brings, and removing it leaves `a + b`.
proof fn lemma_remove_section(a: Seq<char>, o: Seq<char>, b: Seq<char>)
    requires
        no_marker(a),
        a.len() >= 1,
        a.last() == '`',
        quiet(o),
    ensures
        step(a + output_text(o) + b) == Some(a + b),
{
    let d = a + output_text(o) + b;
    let l = a.len() as int;
    let n = trim_newlines(o).len() as int;
    lemma_section_shape(a, o, b);
    lemma_marker_first(d, a);
    assert(occurs_at(d, marker(), l + 1));
    lemma_find_marker_exact(d, 0, l + 1);
    assert(marker_len(d, l + 1) == 14);
    let j = l + 16 + n;
    lemma_close_first(d, l + 15, j, o);
    lemma_find_exact(d, close_pat(), l + 15, j);
    assert(removal(d) == Some((l, j + 4)));
    assert(d.subrange(0, l) + d.subrange(j + 4, d.len() as int) =~= a + b);
}

/// Clearing the rendering of one block leaves its span as it stood.
proof fn lemma_clear_block(
    s: Seq<char>,
    b: BlockView,
    out: Option<Seq<char>>,
    c: int,
    rest_doc: Seq<char>,
)
    requires
        0 <= c <= b.start < b.end <= s.len(),
        s.subrange(b.start, b.end) == fence_text(b) + span_break(s, b),
        no_marker(s),
        out matches Some(o) ==> quiet(o),
    ensures
        sanitized(s.subrange(0, c) + (s.subrange(c, b.start) + render(b, out) + span_break(s, b)
            + rest_doc)) == sanitized(s.subrange(0, b.end) + rest_doc),
{
    let sb = span_break(s, b);
    let f = fence_text(b);
    let doc = s.subrange(0, c) + (s.subrange(c, b.start) + render(b, out) + sb + rest_doc);
    let pre = s.subrange(0, b.start) + f;
    assert(s.subrange(0, b.end) =~= s.subrange(0, b.start) + s.subrange(b.start, b.end));
    assert(s.subrange(0, b.end) =~= pre + sb);
    assert(pre =~= s.subrange(0, pre.len() as int));
    if render(b, out) == f {
        assert(doc =~= s.subrange(0, b.end) + rest_doc);
    } else {
        let o = out->0;
        assert(doc =~= pre + output_text(o) + (sb + rest_doc));
        assert(pre.len() >= 1 && pre.last() == '`');
        assert forall|i: int| !marker_at(pre, i) by {
            if occurs_at(pre, marker(), i) {
                assert(pre.subrange(i, i + 14) =~= s.subrange(i, i + 14));
                assert(marker_at(s, i));
            }
            if occurs_at(pre, marker_colon(), i) {
                assert(pre.subrange(i, i + 15) =~= s.subrange(i, i + 15));
                assert(marker_at(s, i));
            }
        }
        lemma_remove_section(pre, o, sb + rest_doc);
        assert(pre + (sb + rest_doc) =~= s.subrange(0, b.end) + rest_doc);
    }
}

proof fn lemma_clear_rendered(
    s: Seq<char>,
    bs: Seq<BlockView>,
    outs: Seq<Option<Seq<char>>>,
    c: int,
)
    requires
        step(s) is None,
        no_marker(s),
        spans_ok(s, bs, c),
        canonical(s, bs),
        quiet_slots(outs),
        outs.len() >= bs.len(),
    ensures
        sanitized(s.subrange(0, c) + assemble(s, bs, outs, c)) == s,
    decreases bs.len(),
{
    if bs.len() == 0 {
        assert(s.subrange(0, c) + s.subrange(c, s.len() as int) =~= s);
    } else {
        let b = bs[0];
        let rest = bs.drop_first();
        let orest = outs.drop_first();
        assert(canonical(s, rest)) by {
            assert forall|k: int| 0 <= k < rest.len() implies s.subrange(
                (#[trigger] rest[k]).start,
                rest[k].end,
            ) == fence_text(rest[k]) + span_break(s, rest[k]) by {
                assert(rest[k] == bs[k + 1]);
            }
        }
        assert(quiet_slots(orest)) by {
            assert forall|k: int| 0 <= k < orest.len() implies (#[trigger] orest[k] matches Some(
                o,
            ) ==> quiet(o)) by {
                assert(orest[k] == outs[k + 1]);
            }
        }
        lemma_clear_rendered(s, rest, orest, b.end);
        let rest_doc = assemble(s, rest, orest, b.end);
        assert(s.subrange(b.start, b.end) == fence_text(b) + span_break(s, b));
        assert(outs[0] matches Some(o) ==> quiet(o));
        lemma_clear_block(s, b, outs[0], c, rest_doc);
    }
}

/// Running the pipeline twice and then clearing gives the sanitized
/// document back, byte for byte, whatever the two runs printed, when every
/// block is written as the renderer writes it, the document holds no output
/// marker of its own, and no line of an output begins with a fence.
pub proof fn law_round_trip(
    content: Seq<char>,
    outs1: Seq<Option<Seq<char>>>,
    outs2: Seq<Option<Seq<char>>>,
)
    requires
        no_marker(sanitized(content)),
        canonical(sanitized(content), blocks_of(sanitized(content))),
        quiet_slots(outs1),
        quiet_slots(outs2),
        outs1.len() == blocks_of(sanitized(content)).len(),
        outs2.len() == blocks_of(sanitized(content)).len(),
    ensures
        sanitized(processed(content, outs1)) == sanitized(content),
        sanitized(processed(processed(content, outs1), outs2)) == sanitized(content),
{
    let s = sanitized(content);
    lemma_sanitized_clean(content);
    lemma_scan_spans(s, 0);
    assert(s.subrange(0, 0) + processed(content, outs1) =~= processed(content, outs1));
    lemma_clear_rendered(s, blocks_of(s), outs1, 0);
    assert(s.subrange(0, 0) + processed(content, outs2) =~= processed(content, outs2));
    lemma_clear_rendered(s, blocks_of(s), outs2, 0);
}

} // verus!
