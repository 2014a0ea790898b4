//! Execution scheduling decisions and reassembly of the processed document.
use vstd::prelude::*;
use crate::fence::{
    blocks_of, block_at, closer_from, closes, lemma_closer_before, lemma_closer_from,
    lemma_line_end_le, opens, scan, scan_blocks, views, BlockView, CodeBlock,
};
use crate::sanitize::{clear_outputs, sanitized};
use crate::text::{
    chars_of, lemma_line_end, line_end, push_all, push_range, string_of, ticks, trim_newlines,
};

verus! {

/// `**Output**`
pub open spec fn output_marker() -> Seq<char> {
    seq!['*', '*', 'O', 'u', 't', 'p', 'u', 't', '*', '*']
}

/// A block re-emitted from its annotation (or bare language token), its code
/// on the lines between, and the closing fence.
pub open spec fn fence_text(b: BlockView) -> Seq<char> {
    ticks() + (if b.info.len() > 0 {
        b.info
    } else {
        b.language
    }) + seq!['\n'] + b.code + seq!['\n'] + ticks()
}

/// The output section that follows a block that ran.
pub open spec fn output_text(out: Seq<char>) -> Seq<char> {
    seq!['\n'] + output_marker() + seq!['\n'] + ticks() + seq!['\n'] + trim_newlines(out) + seq![
        '\n',
    ] + ticks()
}

/// The text that replaces a block's span.
pub open spec fn render(b: BlockView, out: Option<Seq<char>>) -> Seq<char> {
    if b.skip {
        fence_text(b)
    } else {
        match out {
            Some(o) => fence_text(b) + output_text(o),
            None => fence_text(b),
        }
    }
}

/// Spans of `bs` lie in order within `s`, from `cursor` on.
pub open spec fn spans_ok(s: Seq<char>, bs: Seq<BlockView>, cursor: int) -> bool
    decreases bs.len(),
{
    if bs.len() == 0 {
        0 <= cursor <= s.len()
    } else {
        &&& 0 <= cursor <= bs[0].start
        &&& bs[0].start < bs[0].end <= s.len()
        &&& spans_ok(s, bs.drop_first(), bs[0].end)
    }
}

/// The line break that ends a block's span, if the span took one in.
pub open spec fn span_break(s: Seq<char>, b: BlockView) -> Seq<char> {
    if s[b.end - 1] == '\n' {
        seq!['\n']
    } else {
        Seq::empty()
    }
}

/// The document from `cursor` on, with each block's span replaced by its
/// rendering and the line break that closed the span; `outs[i]` is the
/// output of `bs[i]`.
pub open spec fn assemble(
    s: Seq<char>,
    bs: Seq<BlockView>,
    outs: Seq<Option<Seq<char>>>,
    cursor: int,
) -> Seq<char>
    decreases bs.len(),
{
    if bs.len() == 0 {
        s.subrange(cursor, s.len() as int)
    } else {
        s.subrange(cursor, bs[0].start) + render(bs[0], outs[0]) + span_break(s, bs[0]) + assemble(
            s,
            bs.drop_first(),
            outs.drop_first(),
            bs[0].end,
        )
    }
}

proof fn lemma_spans_mono(s: Seq<char>, bs: Seq<BlockView>, c: int, d: int)
    requires
        0 <= c <= d,
        spans_ok(s, bs, d),
    ensures
        spans_ok(s, bs, c),
{
}

/// The blocks that the tokenizer finds lie in order within the document.
pub proof fn lemma_scan_spans(s: Seq<char>, p: int)
    requires
        0 <= p <= s.len(),
    ensures
        spans_ok(s, scan(s, p), p),
    decreases s.len() + 1 - p,
{
    if p < s.len() {
        lemma_line_end(s, p);
        let e = line_end(s, p);
        if opens(s.subrange(p, e)) {
            lemma_closer_from(s, e + 1);
            if let Some(c) = closer_from(s, e + 1) {
                lemma_line_end(s, c);
                let ce = line_end(s, c);
                let rest = scan(s, ce + 1);
                assert(scan(s, p) == seq![block_at(s, p, e, c, ce)] + rest);
                if ce + 1 <= s.len() {
                    lemma_scan_spans(s, ce + 1);
                } else {
                    assert(rest == Seq::<BlockView>::empty());
                }
                let b = block_at(s, p, e, c, ce);
                assert(spans_ok(s, rest, b.end));
                assert(scan(s, p).drop_first() =~= rest);
                assert(scan(s, p)[0] == b);
                assert(p <= b.start <= b.end <= s.len());
            } else {
                assert(scan(s, p) == Seq::<BlockView>::empty());
            }
        } else if e + 1 <= s.len() {
            assert(scan(s, p) == scan(s, e + 1));
            lemma_scan_spans(s, e + 1);
            lemma_spans_mono(s, scan(s, e + 1), p, e + 1);
        } else {
            assert(scan(s, p) == scan(s, e + 1));
            assert(scan(s, e + 1) == Seq::<BlockView>::empty());
        }
    }
}

/// A sanitized document with its blocks.
pub struct Prepared {
    text: Vec<char>,
    blocks: Vec<CodeBlock>,
}

/// One block to run: its position among all blocks, its language token, its
/// source text and its time limit in seconds.
pub struct Job {
    pub index: usize,
    pub language: String,
    pub code: String,
    pub timeout_secs: u64,
}

/// Time limit of a block: 10 s for source text over 1000 characters, else 5 s.
pub open spec fn timeout_for(code: Seq<char>) -> u64 {
    if code.len() > 1000 {
        10
    } else {
        5
    }
}

pub fn timeout_secs(code: &Vec<char>) -> (r: u64)
    ensures
        r == timeout_for(code@),
{
    if code.len() > 1000 {
        10
    } else {
        5
    }
}

/// Number of blocks that are not marked no-run.
pub open spec fn runnable(bs: Seq<BlockView>) -> nat
    decreases bs.len(),
{
    if bs.len() == 0 {
        0
    } else {
        runnable(bs.drop_last()) + if bs.last().skip {
            0nat
        } else {
            1nat
        }
    }
}

/// Several runnable blocks run concurrently when asked to, or when there
/// are at least four of them.
pub open spec fn parallel_wanted(runnable: nat, force_parallel: bool) -> bool {
    runnable > 1 && (force_parallel || runnable >= 4)
}

pub fn use_parallel(runnable: usize, force_parallel: bool) -> (r: bool)
    ensures
        r == parallel_wanted(runnable as nat, force_parallel),
{
    runnable > 1 && (force_parallel || runnable >= 4)
}

/// The output of the last result in `rs` for block `i`, if any.
pub open spec fn slot_of(rs: Seq<(usize, Seq<char>)>, i: int) -> Option<Seq<char>>
    decreases rs.len(),
{
    if rs.len() == 0 {
        None
    } else if rs.last().0 == i {
        Some(rs.last().1)
    } else {
        slot_of(rs.drop_last(), i)
    }
}

/// Outputs per block, from results that came in any order.
pub open spec fn arranged(n: nat, rs: Seq<(usize, Seq<char>)>) -> Seq<Option<Seq<char>>> {
    Seq::new(n, |i: int| slot_of(rs, i))
}

pub open spec fn result_views(rs: Seq<(usize, String)>) -> Seq<(usize, Seq<char>)> {
    rs.map_values(|x: (usize, String)| (x.0, x.1@))
}

pub open spec fn slot_views(v: Seq<Option<String>>) -> Seq<Option<Seq<char>>> {
    v.map_values(
        |o: Option<String>|
            match o {
                Some(s) => Some(s@),
                None => None,
            },
    )
}

/// Places each `(block index, output)` result at its block's position, so
/// that the order in which results arrive has no influence.
pub fn arrange_outputs(n: usize, results: Vec<(usize, String)>) -> (r: Vec<Option<String>>)
    ensures
        slot_views(r@) == arranged(n as nat, result_views(results@)),
{
    let mut slots: Vec<Option<String>> = Vec::new();
    let mut i: usize = 0;
    while i < n
        invariant
            i <= n,
            slots@.len() == i,
            forall|k: int| 0 <= k < i ==> slots@[k] is None,
        decreases n - i,
    {
        slots.push(None);
        i += 1;
    }
    let ghost rv = result_views(results@);
    let mut j: usize = 0;
    while j < results.len()
        invariant
            j <= results.len(),
            slots@.len() == n,
            rv == result_views(results@),
            forall|k: int|
                0 <= k < n ==> slot_views(slots@)[k] == slot_of(rv.subrange(0, j as int), k),
        decreases results.len() - j,
    {
        let idx = results[j].0;
        let out = results[j].1.clone();
        proof {
            assert(rv.subrange(0, j + 1).drop_last() =~= rv.subrange(0, j as int));
            assert(rv[j as int] == (idx, out@));
        }
        let ghost prev = slot_views(slots@);
        if idx < n {
            slots.set(idx, Some(out));
        }
        proof {
            assert forall|k: int| 0 <= k < n implies slot_views(slots@)[k] == slot_of(
                rv.subrange(0, j + 1),
                k,
            ) by {
                assert(rv.subrange(0, j + 1).last() == (idx, out@));
                if k != idx {
                    assert(slot_views(slots@)[k] == prev[k]);
                }
            }
        }
        j += 1;
    }
    assert(slot_views(slots@) =~= arranged(n as nat, rv)) by {
        assert(rv.subrange(0, rv.len() as int) =~= rv);
    }
    slots
}

/// The processed document: the sanitized text with each block's span
/// replaced by its rendering.
pub open spec fn processed(content: Seq<char>, outs: Seq<Option<Seq<char>>>) -> Seq<char> {
    let s = sanitized(content);
    assemble(s, blocks_of(s), outs, 0)
}

fn push_fence(dst: &mut Vec<char>, b: &CodeBlock)
    ensures
        final(dst)@ == old(dst)@ + fence_text(b@),
{
    let tk = vec!['`', '`', '`'];
    assert(tk@ =~= ticks());
    push_all(dst, &tk);
    if b.fence_info.len() > 0 {
        push_all(dst, &b.fence_info);
    } else {
        push_all(dst, &b.language);
    }
    dst.push('\n');
    push_all(dst, &b.code);
    dst.push('\n');
    push_all(dst, &tk);
    assert(final(dst)@ =~= old(dst)@ + fence_text(b@));
}

fn push_output(dst: &mut Vec<char>, out: &Vec<char>)
    ensures
        final(dst)@ == old(dst)@ + output_text(out@),
{
    let mut k = out.len();
    assert(out@.subrange(0, k as int) =~= out@);
    while k > 0 && out[k - 1] == '\n'
        invariant
            k <= out.len(),
            trim_newlines(out@) == trim_newlines(out@.subrange(0, k as int)),
        decreases k,
    {
        assert(out@.subrange(0, k as int).drop_last() =~= out@.subrange(0, k - 1));
        k -= 1;
    }
    let head = vec!['\n', '*', '*', 'O', 'u', 't', 'p', 'u', 't', '*', '*', '\n', '`', '`', '`', '\n'];
    let tail = vec!['\n', '`', '`', '`'];
    push_all(dst, &head);
    push_range(dst, out, 0, k);
    push_all(dst, &tail);
    assert(final(dst)@ =~= old(dst)@ + output_text(out@));
}

impl Prepared {
    pub closed spec fn text_view(&self) -> Seq<char> {
        self.text@
    }

    pub closed spec fn block_views(&self) -> Seq<BlockView> {
        views(self.blocks@)
    }

    /// The blocks are exactly those that the tokenizer finds in the text.
    pub open spec fn wf(&self) -> bool {
        self.block_views() == blocks_of(self.text_view())
    }

    /// Sanitizes a document and finds its blocks.
    pub fn prepare(content: &str) -> (r: Prepared)
        ensures
            r.wf(),
            r.text_view() == sanitized(content@),
    {
        let cleaned = clear_outputs(content);
        let text = chars_of(cleaned.as_str());
        let blocks = scan_blocks(&text);
        Prepared { text, blocks }
    }

    /// The sanitized text.
    pub fn text(&self) -> (r: String)
        ensures
            r@ == self.text_view(),
    {
        string_of(&self.text)
    }

    pub fn block_count(&self) -> (r: usize)
        ensures
            r == self.block_views().len(),
    {
        self.blocks.len()
    }

    /// Number of blocks not marked no-run.
    pub fn runnable_count(&self) -> (r: usize)
        ensures
            r == runnable(self.block_views()),
    {
        let ghost bs = self.block_views();
        let mut count: usize = 0;
        let mut i: usize = 0;
        while i < self.blocks.len()
            invariant
                i <= self.blocks.len(),
                bs == self.block_views(),
                count <= i,
                count == runnable(bs.subrange(0, i as int)),
            decreases self.blocks.len() - i,
        {
            assert(bs.subrange(0, i + 1).drop_last() =~= bs.subrange(0, i as int));
            if !self.blocks[i].skip {
                count += 1;
            }
            i += 1;
        }
        assert(bs.subrange(0, i as int) =~= bs);
        count
    }

    /// The blocks to run, in document order: every block not marked no-run.
    pub fn jobs(&self) -> (r: Vec<Job>)
        ensures
            forall|k: int|
                #![trigger r@[k]]
                0 <= k < r@.len() ==> {
                    let i = r@[k].index as int;
                    let b = self.block_views()[i];
                    &&& 0 <= i < self.block_views().len()
                    &&& !b.skip
                    &&& r@[k].language@ == b.language
                    &&& r@[k].code@ == b.code
                    &&& r@[k].timeout_secs == timeout_for(b.code)
                },
            forall|k1: int, k2: int|
                0 <= k1 < k2 < r@.len() ==> r@[k1].index < r@[k2].index,
            forall|i: int|
                0 <= i < self.block_views().len() && !(#[trigger] self.block_views()[i]).skip
                    ==> exists|k: int| 0 <= k < r@.len() && r@[k].index == i,
    {
        let ghost bs = self.block_views();
        let mut out: Vec<Job> = Vec::new();
        let mut i: usize = 0;
        while i < self.blocks.len()
            invariant
                i <= self.blocks.len(),
                bs == self.block_views(),
                bs.len() == self.blocks.len(),
                forall|k: int|
                    #![trigger out@[k]]
                    0 <= k < out@.len() ==> {
                        let j = out@[k].index as int;
                        let b = bs[j];
                        &&& 0 <= j < i
                        &&& !b.skip
                        &&& out@[k].language@ == b.language
                        &&& out@[k].code@ == b.code
                        &&& out@[k].timeout_secs == timeout_for(b.code)
                    },
                forall|k1: int, k2: int|
                    0 <= k1 < k2 < out@.len() ==> out@[k1].index < out@[k2].index,
                forall|j: int|
                    0 <= j < i && !(#[trigger] bs[j]).skip ==> exists|k: int|
                        0 <= k < out@.len() && out@[k].index == j,
            decreases self.blocks.len() - i,
        {
            let b = &self.blocks[i];
            assert(bs[i as int] == b@);
            if !b.skip {
                let job = Job {
                    index: i,
                    language: string_of(&b.language),
                    code: string_of(&b.code),
                    timeout_secs: timeout_secs(&b.code),
                };
                let ghost before = out@;
                out.push(job);
                assert forall|j: int| 0 <= j < i + 1 && !(#[trigger] bs[j]).skip implies exists|
                    k: int,
                | 0 <= k < out@.len() && out@[k].index == j by {
                    if j == i {
                        assert(out@[out@.len() - 1].index == j);
                    } else {
                        let k = choose|k: int| 0 <= k < before.len() && before[k].index == j;
                        assert(out@[k] == before[k]);
                    }
                }
            }
            i += 1;
        }
        out
    }

    /// The processed document: each runnable block followed by the output in
    /// its slot, no-run blocks reproduced as they were, the text between and
    /// after the blocks unchanged.
    pub fn render(&self, outputs: &Vec<Option<String>>) -> (r: String)
        requires
            self.wf(),
            outputs@.len() == self.block_views().len(),
        ensures
            r@ == assemble(self.text_view(), self.block_views(), slot_views(outputs@), 0),
    {
        let ghost s = self.text_view();
        let ghost bs = self.block_views();
        let ghost os = slot_views(outputs@);
        proof {
            lemma_scan_spans(s, 0);
            assert(bs.subrange(0, bs.len() as int) =~= bs);
            assert(os.subrange(0, os.len() as int) =~= os);
        }
        let mut out: Vec<char> = Vec::new();
        assert(out@ + assemble(s, bs, os, 0) =~= assemble(s, bs, os, 0));
        let mut cursor: usize = 0;
        let mut i: usize = 0;
        while i < self.blocks.len()
            invariant
                i <= self.blocks.len(),
                s == self.text@,
                bs == views(self.blocks@),
                os == slot_views(outputs@),
                bs.len() == self.blocks.len(),
                os.len() == bs.len(),
                spans_ok(s, bs.subrange(i as int, bs.len() as int), cursor as int),
                out@ + assemble(
                    s,
                    bs.subrange(i as int, bs.len() as int),
                    os.subrange(i as int, os.len() as int),
                    cursor as int,
                ) == assemble(s, bs, os, 0),
            decreases self.blocks.len() - i,
        {
            let b = &self.blocks[i];
            let ghost rest = bs.subrange(i as int, bs.len() as int);
            let ghost orest = os.subrange(i as int, os.len() as int);
            assert(rest[0] == b@);
            assert(rest.drop_first() =~= bs.subrange(i + 1, bs.len() as int));
            assert(orest.drop_first() =~= os.subrange(i + 1, os.len() as int));
            assert(orest[0] == os[i as int]);
            let ghost before = out@;
            push_range(&mut out, &self.text, cursor, b.start_pos);
            push_fence(&mut out, b);
            if !b.skip {
                match &outputs[i] {
                    Some(o) => {
                        let oc = chars_of(o.as_str());
                        push_output(&mut out, &oc);
                    },
                    None => {},
                }
            }
            if self.text[b.end_pos - 1] == '\n' {
                out.push('\n');
            }
            assert(out@ =~= before + s.subrange(cursor as int, b@.start) + render(b@, os[i as int])
                + span_break(s, b@));
            cursor = b.end_pos;
            i += 1;
        }
        push_range(&mut out, &self.text, cursor, self.text.len());
        string_of(&out)
    }
}

/// No two results name the same block.
pub open spec fn distinct_indices(rs: Seq<(usize, Seq<char>)>) -> bool {
    forall|j1: int, j2: int|
        0 <= j1 < rs.len() && 0 <= j2 < rs.len() && j1 != j2 ==> rs[j1].0 != rs[j2].0
}

proof fn lemma_slot_large(rs: Seq<(usize, Seq<char>)>, i: int)
    requires
        i < 0 || i > usize::MAX,
    ensures
        slot_of(rs, i) is None,
    decreases rs.len(),
{
    if rs.len() > 0 {
        lemma_slot_large(rs.drop_last(), i);
    }
}

proof fn lemma_slot_of(rs: Seq<(usize, Seq<char>)>, i: int, v: Seq<char>)
    requires
        distinct_indices(rs),
        0 <= i <= usize::MAX,
    ensures
        slot_of(rs, i) == Some(v) <==> rs.contains((i as usize, v)),
        slot_of(rs, i) is None <==> !exists|j: int| 0 <= j < rs.len() && rs[j].0 == i,
    decreases rs.len(),
{
    if rs.len() > 0 {
        let init = rs.drop_last();
        assert(distinct_indices(init));
        lemma_slot_of(init, i, v);
        if rs.last().0 == i {
            if rs.contains((i as usize, v)) {
                let j = choose|j: int| 0 <= j < rs.len() && rs[j] == (i as usize, v);
                assert(j == rs.len() - 1);
            }
        } else {
            if rs.contains((i as usize, v)) {
                let j = choose|j: int| 0 <= j < rs.len() && rs[j] == (i as usize, v);
                assert(j < rs.len() - 1);
                assert(init[j] == rs[j]);
            }
            if init.contains((i as usize, v)) {
                let j = choose|j: int| 0 <= j < init.len() && init[j] == (i as usize, v);
                assert(rs[j] == init[j]);
            }
            if exists|j: int| 0 <= j < rs.len() && rs[j].0 == i {
                let j = choose|j: int| 0 <= j < rs.len() && rs[j].0 == i;
                assert(j < rs.len() - 1);
                assert(init[j] == rs[j]);
            }
        }
    }
}

/// The order in which results arrive does not matter: two lists that hold
/// the same results give each block the same output.
pub proof fn law_completion_order(n: nat, rs1: Seq<(usize, Seq<char>)>, rs2: Seq<(usize, Seq<char>)>)
    requires
        distinct_indices(rs1),
        distinct_indices(rs2),
        forall|x: (usize, Seq<char>)| rs1.contains(x) <==> rs2.contains(x),
    ensures
        arranged(n, rs1) == arranged(n, rs2),
{
    assert forall|i: int| 0 <= i < n implies slot_of(rs1, i) == slot_of(rs2, i) by {
        if i > usize::MAX {
            lemma_slot_large(rs1, i);
            lemma_slot_large(rs2, i);
        } else {
        match slot_of(rs1, i) {
            Some(v) => {
                lemma_slot_of(rs1, i, v);
                lemma_slot_of(rs2, i, v);
            },
            None => {
                match slot_of(rs2, i) {
                    Some(w) => {
                        lemma_slot_of(rs1, i, w);
                        lemma_slot_of(rs2, i, w);
                    },
                    None => {},
                }
            },
        }
        }
    }
    assert(arranged(n, rs1) =~= arranged(n, rs2));
}

/// A no-run block is re-emitted as it stood, with no output section,
/// whatever output it is given.
pub proof fn law_skip_fidelity(b: BlockView, out: Option<Seq<char>>)
    requires
        b.skip,
    ensures
        render(b, out) == fence_text(b),
        fence_text(b).subrange(4 + fence_head_len(b), 4 + fence_head_len(b) + b.code.len())
            == b.code,
{
    assert(fence_text(b).subrange(4 + fence_head_len(b), 4 + fence_head_len(b) + b.code.len())
        =~= b.code);
}

/// Length of the annotation that a re-emitted fence carries.
pub open spec fn fence_head_len(b: BlockView) -> int {
    if b.info.len() > 0 {
        b.info.len() as int
    } else {
        b.language.len() as int
    }
}

/// `t` is a suffix of `r`.
pub open spec fn ends_with(r: Seq<char>, t: Seq<char>) -> bool {
    r.len() >= t.len() && r.subrange(r.len() - t.len(), r.len() as int) == t
}

proof fn lemma_ends_with_prefix(x: Seq<char>, y: Seq<char>, t: Seq<char>)
    requires
        ends_with(y, t),
    ensures
        ends_with(x + y, t),
{
    assert((x + y).subrange((x + y).len() - t.len(), (x + y).len() as int) =~= y.subrange(
        y.len() - t.len(),
        y.len() as int,
    ));
}

proof fn lemma_scan_before(
    s: Seq<char>,
    q: int,
    p: int,
    outs: Seq<Option<Seq<char>>>,
    cursor: int,
)
    requires
        0 <= cursor <= q <= p < s.len(),
        q == p || s[p - 1] == '\n',
        opens(s.subrange(p, line_end(s, p))),
        closer_from(s, line_end(s, p) + 1) is None,
    ensures
        forall|k: int| 0 <= k < scan(s, q).len() ==> (#[trigger] scan(s, q)[k]).end <= p,
        ends_with(assemble(s, scan(s, q), outs, cursor), s.subrange(p, s.len() as int)),
        cursor < p ==> ends_with(
            assemble(s, scan(s, q), outs, cursor),
            s.subrange(p - 1, s.len() as int),
        ),
    decreases p - q,
{
    let tail = s.subrange(p, s.len() as int);
    let tail1 = s.subrange(p - 1, s.len() as int);
    lemma_line_end(s, q);
    let e = line_end(s, q);
    if q == p {
        assert(scan(s, q) == Seq::<BlockView>::empty());
        assert(s.subrange(cursor, s.len() as int).subrange(p - cursor, s.len() - cursor) =~= tail);
        if cursor < p {
            assert(s.subrange(cursor, s.len() as int).subrange(p - 1 - cursor, s.len() - cursor)
                =~= tail1);
        }
    } else {
        lemma_line_end_le(s, q, p - 1);
        if opens(s.subrange(q, e)) {
            lemma_closer_from(s, e + 1);
            match closer_from(s, e + 1) {
                None => {
                    assert(scan(s, q) == Seq::<BlockView>::empty());
                    assert(s.subrange(cursor, s.len() as int).subrange(p - cursor, s.len() - cursor)
                        =~= tail);
                    assert(s.subrange(cursor, s.len() as int).subrange(p - 1 - cursor, s.len()
                        - cursor) =~= tail1);
                },
                Some(c) => {
                    assert(!closes(s.subrange(p, line_end(s, p))));
                    lemma_closer_before(s, e + 1, p);
                    lemma_line_end(s, c);
                    let ce = line_end(s, c);
                    lemma_line_end_le(s, c, p - 1);
                    let b = block_at(s, q, e, c, ce);
                    let rest = scan(s, ce + 1);
                    assert(scan(s, q) == seq![b] + rest);
                    assert(scan(s, q)[0] == b);
                    assert(scan(s, q).drop_first() =~= rest);
                    assert(b.end == ce + 1);
                    lemma_scan_before(s, ce + 1, p, outs.drop_first(), ce + 1);
                    let head = s.subrange(cursor, q) + render(b, outs[0]) + span_break(s, b);
                    assert(assemble(s, scan(s, q), outs, cursor) == head + assemble(
                        s,
                        rest,
                        outs.drop_first(),
                        ce + 1,
                    ));
                    lemma_ends_with_prefix(head, assemble(s, rest, outs.drop_first(), ce + 1), tail);
                    if ce + 1 < p {
                        lemma_ends_with_prefix(
                            head,
                            assemble(s, rest, outs.drop_first(), ce + 1),
                            tail1,
                        );
                    } else {
                        lemma_line_end(s, p);
                        assert(rest == Seq::<BlockView>::empty());
                        assert(assemble(s, rest, outs.drop_first(), ce + 1) == tail);
                        assert(span_break(s, b) == seq!['\n']);
                        let whole = head + tail;
                        assert(whole.subrange(whole.len() - tail1.len(), whole.len() as int)
                            =~= tail1);
                    }
                    assert forall|k: int| 0 <= k < scan(s, q).len() implies (#[trigger] scan(
                        s,
                        q,
                    )[k]).end <= p by {
                        if k > 0 {
                            assert(scan(s, q)[k] == rest[k - 1]);
                        }
                    }
                },
            }
        } else {
            assert(scan(s, q) == scan(s, e + 1));
            lemma_scan_before(s, e + 1, p, outs, cursor);
        }
    }
}

/// An opening fence that no closing fence follows: every block lies before
/// it, and the processed document ends with the text from that fence on,
/// unchanged and after a line break.
pub proof fn law_unterminated_fence(s: Seq<char>, p: int, outs: Seq<Option<Seq<char>>>)
    requires
        0 <= p < s.len(),
        p == 0 || s[p - 1] == '\n',
        opens(s.subrange(p, line_end(s, p))),
        closer_from(s, line_end(s, p) + 1) is None,
    ensures
        forall|k: int| 0 <= k < blocks_of(s).len() ==> (#[trigger] blocks_of(s)[k]).end <= p,
        ends_with(assemble(s, blocks_of(s), outs, 0), s.subrange(p, s.len() as int)),
        p > 0 ==> ends_with(assemble(s, blocks_of(s), outs, 0), s.subrange(p - 1, s.len() as int))
            && s[p - 1] == '\n',
{
    lemma_scan_before(s, 0, p, outs, 0);
}

/// Whatever order the results arrive in, the rendering of the `i`-th block
/// is its fence followed by the output section of the result that names
/// `i`; `assemble` places the renderings in block order.
pub proof fn law_output_order(
    bs: Seq<BlockView>,
    rs: Seq<(usize, Seq<char>)>,
    i: usize,
    o: Seq<char>,
)
    requires
        distinct_indices(rs),
        i < bs.len(),
        !bs[i as int].skip,
        rs.contains((i, o)),
    ensures
        render(bs[i as int], arranged(bs.len(), rs)[i as int]) == fence_text(bs[i as int])
            + output_text(o),
{
    lemma_slot_of(rs, i as int, o);
}

} // verus!
