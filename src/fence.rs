//! Fence tokenizer: finds the runnable code blocks of a document and their
//! exact character spans.
use vstd::prelude::*;
use crate::text::{
    chars_of, is_ws, is_ws_char, lemma_line_end, line_end, matches_at, occurs_at,
    push_range, string_of, ticks, trim, trim_bounds,
};

verus! {

/// What a code block is, mathematically.
pub struct BlockView {
    pub language: Seq<char>,
    pub code: Seq<char>,
    pub start: int,
    pub end: int,
    pub skip: bool,
    pub info: Seq<char>,
}

/// One fenced block: its language token, its source text, the half-open
/// span `[start_pos, end_pos)` from the opening fence through the closing
/// fence line, the no-run flag, and the text after the opening backticks.
pub struct CodeBlock {
    pub language: Vec<char>,
    pub code: Vec<char>,
    pub start_pos: usize,
    pub end_pos: usize,
    pub skip: bool,
    pub fence_info: Vec<char>,
}

impl View for CodeBlock {
    type V = BlockView;

    open spec fn view(&self) -> BlockView {
        BlockView {
            language: self.language@,
            code: self.code@,
            start: self.start_pos as int,
            end: self.end_pos as int,
            skip: self.skip,
            info: self.fence_info@,
        }
    }
}

impl CodeBlock {
    pub fn language_text(&self) -> (r: String)
        ensures
            r@ == self.language@,
    {
        string_of(&self.language)
    }

    pub fn code_text(&self) -> (r: String)
        ensures
            r@ == self.code@,
    {
        string_of(&self.code)
    }

    pub fn fence_info_text(&self) -> (r: String)
        ensures
            r@ == self.fence_info@,
    {
        string_of(&self.fence_info)
    }
}

pub open spec fn views(bs: Seq<CodeBlock>) -> Seq<BlockView> {
    bs.map_values(|b: CodeBlock| b@)
}

/// The annotation after the opening backticks of a (trimmed) fence line.
pub open spec fn info_of(line: Seq<char>) -> Seq<char> {
    let t = trim(line);
    trim(t.subrange(3, t.len() as int))
}

/// Index of the first whitespace at or after `i`, or the length of `s`.
pub open spec fn word_end(s: Seq<char>, i: int) -> int
    decreases s.len() - i,
{
    if i >= s.len() {
        s.len() as int
    } else if is_ws(s[i]) {
        i
    } else {
        word_end(s, i + 1)
    }
}

/// First whitespace-separated token of an annotation.
pub open spec fn lang_of(info: Seq<char>) -> Seq<char> {
    info.subrange(0, word_end(info, 0))
}

/// `[A-Za-z0-9_-]`
pub open spec fn lang_char(c: char) -> bool {
    ('a' <= c && c <= 'z') || ('A' <= c && c <= 'Z') || ('0' <= c && c <= '9') || c == '_' || c
        == '-'
}

pub open spec fn valid_lang(l: Seq<char>) -> bool {
    l.len() > 0 && forall|k: int| 0 <= k < l.len() ==> lang_char(#[trigger] l[k])
}

/// `tok` stands in `s` at `i` as a whole token that is not the first one.
pub open spec fn token_at(s: Seq<char>, tok: Seq<char>, i: int) -> bool {
    &&& 0 < i
    &&& occurs_at(s, tok, i)
    &&& is_ws(s[i - 1])
    &&& (i + tok.len() == s.len() || is_ws(s[i + tok.len()]))
}

pub open spec fn no_run_short() -> Seq<char> {
    seq!['-', 'n', 'r']
}

pub open spec fn no_run_long() -> Seq<char> {
    seq!['-', '-', 'n', 'o', '-', 'r', 'u', 'n']
}

/// The annotation carries `-nr` or `--no-run` after the language token.
pub open spec fn skip_of(info: Seq<char>) -> bool {
    exists|i: int| token_at(info, no_run_short(), i) || token_at(info, no_run_long(), i)
}

/// The line opens a runnable block.
pub open spec fn opens(line: Seq<char>) -> bool {
    let t = trim(line);
    &&& t.len() > 3
    &&& t.subrange(0, 3) == ticks()
    &&& valid_lang(lang_of(info_of(line)))
}

/// The line closes a block.
pub open spec fn closes(line: Seq<char>) -> bool {
    trim(line) == ticks()
}

/// Start of the first line at or after line start `q` that closes a block.
pub open spec fn closer_from(s: Seq<char>, q: int) -> Option<int>
    decreases s.len() + 1 - q,
    via closer_from_decreases
{
    if q < 0 || q >= s.len() {
        None
    } else {
        let e = line_end(s, q);
        if closes(s.subrange(q, e)) {
            Some(q)
        } else {
            closer_from(s, e + 1)
        }
    }
}

#[via_fn]
proof fn closer_from_decreases(s: Seq<char>, q: int) {
    if 0 <= q < s.len() {
        lemma_line_end(s, q);
    }
}

pub proof fn lemma_closer_from(s: Seq<char>, q: int)
    ensures
        closer_from(s, q) matches Some(c) ==> q <= c < s.len(),
    decreases s.len() + 1 - q,
{
    if 0 <= q < s.len() {
        lemma_line_end(s, q);
        let e = line_end(s, q);
        if !closes(s.subrange(q, e)) {
            lemma_closer_from(s, e + 1);
        }
    }
}

/// The block opened on the line `[p, e)` and closed on the line `[c, ce)`.
pub open spec fn block_at(s: Seq<char>, p: int, e: int, c: int, ce: int) -> BlockView {
    let info = info_of(s.subrange(p, e));
    BlockView {
        language: lang_of(info),
        code: if c > e + 1 {
            s.subrange(e + 1, c - 1)
        } else {
            Seq::empty()
        },
        start: p,
        end: if ce + 1 < s.len() {
            ce + 1
        } else {
            s.len() as int
        },
        skip: skip_of(info),
        info,
    }
}

/// The blocks found by scanning `s` line by line from line start `p`. An
/// opener without a closer ends the scan.
pub open spec fn scan(s: Seq<char>, p: int) -> Seq<BlockView>
    decreases s.len() + 1 - p,
    via scan_decreases
{
    if p < 0 || p >= s.len() {
        Seq::empty()
    } else {
        let e = line_end(s, p);
        if opens(s.subrange(p, e)) {
            match closer_from(s, e + 1) {
                None => Seq::empty(),
                Some(c) => {
                    let ce = line_end(s, c);
                    seq![block_at(s, p, e, c, ce)] + scan(s, ce + 1)
                },
            }
        } else {
            scan(s, e + 1)
        }
    }
}

#[via_fn]
proof fn scan_decreases(s: Seq<char>, p: int) {
    if 0 <= p < s.len() {
        lemma_line_end(s, p);
        let e = line_end(s, p);
        lemma_closer_from(s, e + 1);
        if let Some(c) = closer_from(s, e + 1) {
            lemma_line_end(s, c);
        }
    }
}

/// The blocks of a document, in document order.
pub open spec fn blocks_of(s: Seq<char>) -> Seq<BlockView> {
    scan(s, 0)
}

fn line_end_exec(s: &Vec<char>, p: usize) -> (r: usize)
    requires
        p <= s.len(),
    ensures
        r == line_end(s@, p as int),
{
    let mut i = p;
    while i < s.len() && s[i] != '\n'
        invariant
            p <= i <= s.len(),
            line_end(s@, p as int) == line_end(s@, i as int),
        decreases s.len() - i,
    {
        i += 1;
    }
    i
}

fn copy_range(s: &Vec<char>, lo: usize, hi: usize) -> (r: Vec<char>)
    requires
        lo <= hi <= s.len(),
    ensures
        r@ == s@.subrange(lo as int, hi as int),
{
    let mut r = Vec::new();
    push_range(&mut r, s, lo, hi);
    r
}

fn has_token(info: &Vec<char>, tok: &Vec<char>, i: usize) -> (r: bool)
    requires
        0 < i <= info.len(),
    ensures
        r == token_at(info@, tok@, i as int),
{
    if !matches_at(info, tok, i) || !is_ws_char(info[i - 1]) {
        return false;
    }
    i + tok.len() == info.len() || is_ws_char(info[i + tok.len()])
}

fn skip_exec(info: &Vec<char>) -> (r: bool)
    ensures
        r == skip_of(info@),
{
    let short = vec!['-', 'n', 'r'];
    let long = vec!['-', '-', 'n', 'o', '-', 'r', 'u', 'n'];
    assert(short@ =~= no_run_short());
    assert(long@ =~= no_run_long());
    let mut i: usize = 1;
    while i < info.len()
        invariant
            1 <= i,
            i <= info.len() || info.len() == 0,
            short@ == no_run_short(),
            long@ == no_run_long(),
            forall|j: int|
                j < i ==> !token_at(info@, no_run_short(), j) && !token_at(
                    info@,
                    no_run_long(),
                    j,
                ),
        decreases info.len() - i,
    {
        if has_token(info, &short, i) || has_token(info, &long, i) {
            return true;
        }
        i += 1;
    }
    assert forall|j: int|
        !token_at(info@, no_run_short(), j) && !token_at(info@, no_run_long(), j) by {
        if j >= i {
            assert(!occurs_at(info@, no_run_short(), j));
            assert(!occurs_at(info@, no_run_long(), j));
        }
    }
    false
}

fn lang_end_exec(info: &Vec<char>) -> (r: usize)
    ensures
        r == word_end(info@, 0),
        r <= info.len(),
{
    let mut i: usize = 0;
    while i < info.len() && !is_ws_char(info[i])
        invariant
            i <= info.len(),
            word_end(info@, 0) == word_end(info@, i as int),
        decreases info.len() - i,
    {
        i += 1;
    }
    i
}

fn valid_lang_exec(l: &Vec<char>) -> (r: bool)
    ensures
        r == valid_lang(l@),
{
    if l.len() == 0 {
        return false;
    }
    let mut i: usize = 0;
    while i < l.len()
        invariant
            i <= l.len(),
            forall|k: int| 0 <= k < i ==> lang_char(#[trigger] l@[k]),
        decreases l.len() - i,
    {
        let c = l[i];
        if !(('a' <= c && c <= 'z') || ('A' <= c && c <= 'Z') || ('0' <= c && c <= '9') || c == '_'
            || c == '-') {
            return false;
        }
        i += 1;
    }
    true
}

/// Analyses the line `[p, e)`; returns the block's language, annotation and
/// no-run flag when the line opens a runnable block.
fn opener_exec(s: &Vec<char>, p: usize, e: usize) -> (r: Option<(Vec<char>, Vec<char>, bool)>)
    requires
        p <= e <= s.len(),
    ensures
        r is Some <==> opens(s@.subrange(p as int, e as int)),
        r matches Some(x) ==> {
            let info = info_of(s@.subrange(p as int, e as int));
            &&& x.0@ == lang_of(info)
            &&& x.1@ == info
            &&& x.2 == skip_of(info)
        },
{
    let ghost line = s@.subrange(p as int, e as int);
    let (a, b) = trim_bounds(s, p, e);
    let tk = vec!['`', '`', '`'];
    assert(tk@ =~= ticks());
    if b - a <= 3 || !matches_at(s, &tk, a) {
        proof {
            if b - a > 3 {
                assert(trim(line).subrange(0, 3) =~= s@.subrange(a as int, a + 3));
            }
        }
        return None;
    }
    assert(trim(line).subrange(0, 3) =~= s@.subrange(a as int, a + 3));
    let (ia, ib) = trim_bounds(s, a + 3, b);
    assert(trim(line).subrange(3, trim(line).len() as int) =~= s@.subrange(a + 3, b as int));
    let info = copy_range(s, ia, ib);
    let we = lang_end_exec(&info);
    let language = copy_range(&info, 0, we);
    if !valid_lang_exec(&language) {
        return None;
    }
    let skip = skip_exec(&info);
    Some((language, info, skip))
}

fn closer_exec(s: &Vec<char>, q0: usize) -> (r: Option<usize>)
    requires
        q0 <= s.len(),
    ensures
        r == (match closer_from(s@, q0 as int) {
            Some(c) => Some(c as usize),
            None => None::<usize>,
        }),
{
    let tk = vec!['`', '`', '`'];
    assert(tk@ =~= ticks());
    let mut q = q0;
    while q < s.len()
        invariant
            q0 <= q <= s.len(),
            tk@ == ticks(),
            closer_from(s@, q0 as int) == closer_from(s@, q as int),
        decreases s.len() - q,
    {
        let qe = line_end_exec(s, q);
        proof {
            lemma_line_end(s@, q as int);
        }
        let (x, y) = trim_bounds(s, q, qe);
        if y - x == 3 && matches_at(s, &tk, x) {
            assert(s@.subrange(x as int, y as int) =~= ticks());
            assert(closer_from(s@, q as int) == Some(q as int));
            return Some(q);
        }
        proof {
            if trim(s@.subrange(q as int, qe as int)) == ticks() {
                assert(s@.subrange(x as int, x + 3) =~= s@.subrange(x as int, y as int));
            }
        }
        assert(closer_from(s@, q as int) == closer_from(s@, qe + 1));
        if qe >= s.len() {
            assert(closer_from(s@, qe + 1) == None::<int>);
            return None;
        }
        q = qe + 1;
    }
    None
}

/// Scans a document for runnable code blocks, in document order.
pub fn find_all_code_blocks(content: &str) -> (r: Vec<CodeBlock>)
    ensures
        views(r@) == blocks_of(content@),
{
    let s = chars_of(content);
    scan_blocks(&s)
}

pub proof fn lemma_line_end_le(s: Seq<char>, q: int, k: int)
    requires
        0 <= q <= k < s.len(),
        s[k] == '\n',
    ensures
        line_end(s, q) <= k,
    decreases k - q,
{
    if s[q] != '\n' {
        lemma_line_end_le(s, q + 1, k);
    }
}

/// When the line at `p` neither closes a block nor is followed by a closing
/// line, a closer searched for from an earlier line start lies before `p`.
pub proof fn lemma_closer_before(s: Seq<char>, q: int, p: int)
    requires
        0 <= q <= p < s.len(),
        q == p || s[p - 1] == '\n',
        !closes(s.subrange(p, line_end(s, p))),
        closer_from(s, line_end(s, p) + 1) is None,
    ensures
        closer_from(s, q) matches Some(c) ==> c < p,
    decreases p - q,
{
    if q < p {
        lemma_line_end(s, q);
        lemma_line_end_le(s, q, p - 1);
        let e = line_end(s, q);
        if !closes(s.subrange(q, e)) {
            lemma_closer_before(s, e + 1, p);
        }
    }
}

/// The blocks of a document held as characters, in document order.
pub fn scan_blocks(s: &Vec<char>) -> (r: Vec<CodeBlock>)
    ensures
        views(r@) == blocks_of(s@),
{
    let mut out: Vec<CodeBlock> = Vec::new();
    let mut p: usize = 0;
    while p < s.len()
        invariant
            p <= s.len(),
            views(out@) + scan(s@, p as int) == blocks_of(s@),
        decreases s.len() - p,
    {
        let e = line_end_exec(s, p);
        proof {
            lemma_line_end(s@, p as int);
        }
        let opened = opener_exec(s, p, e);
        match opened {
            None => {
                if e >= s.len() {
                    assert(scan(s@, e + 1) == Seq::<BlockView>::empty());
                    assert(views(out@) + scan(s@, p as int) =~= views(out@));
                    return out;
                }
                p = e + 1;
            },
            Some((language, fence_info, skip)) => {
                if e >= s.len() {
                    assert(views(out@) + scan(s@, p as int) =~= views(out@));
                    return out;
                }
                let found = closer_exec(s, e + 1);
                match found {
                    None => {
                        assert(views(out@) + scan(s@, p as int) =~= views(out@));
                        return out;
                    },
                    Some(c) => {
                        proof {
                            lemma_closer_from(s@, e + 1);
                            lemma_line_end(s@, c as int);
                        }
                        let ce = line_end_exec(s, c);
                        let code = if c > e + 1 {
                            copy_range(s, e + 1, c - 1)
                        } else {
                            Vec::new()
                        };
                        let end_pos = if ce < s.len() && ce + 1 < s.len() {
                            ce + 1
                        } else {
                            s.len()
                        };
                        let block = CodeBlock {
                            language,
                            code,
                            start_pos: p,
                            end_pos,
                            skip,
                            fence_info,
                        };
                        let ghost old_out = out@;
                        assert(block@ == block_at(s@, p as int, e as int, c as int, ce as int));
                        out.push(block);
                        assert(views(out@) =~= views(old_out) + seq![block@]);
                        assert(scan(s@, p as int) == seq![block_at(s@, p as int, e as int, c as int, ce as int)] + scan(s@, ce + 1));
                        if ce >= s.len() {
                            assert(scan(s@, ce + 1) == Seq::<BlockView>::empty());
                            assert(views(out@) =~= views(old_out) + scan(s@, p as int));
                            return out;
                        }
                        p = ce + 1;
                    },
                }
            },
        }
    }
    assert(views(out@) + scan(s@, p as int) =~= views(out@));
    out
}

} // verus!
