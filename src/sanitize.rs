//! Output sanitizer: strips previously inserted output sections and
//! separates glued fences, until neither applies.
use vstd::prelude::*;
use crate::text::{chars_of, occurs_at, matches_at, push_range, string_of, ticks};

verus! {

/// `**Output**` followed by a line break and an opening fence.
pub open spec fn marker() -> Seq<char> {
    seq!['*', '*', 'O', 'u', 't', 'p', 'u', 't', '*', '*', '\n', '`', '`', '`']
}

/// `**Output:**` followed by a line break and an opening fence.
pub open spec fn marker_colon() -> Seq<char> {
    seq!['*', '*', 'O', 'u', 't', 'p', 'u', 't', ':', '*', '*', '\n', '`', '`', '`']
}

/// An output marker, in either form, starts at `i`.
pub open spec fn marker_at(s: Seq<char>, i: int) -> bool {
    occurs_at(s, marker(), i) || occurs_at(s, marker_colon(), i)
}

/// Length of the marker that starts at `i`.
pub open spec fn marker_len(s: Seq<char>, i: int) -> int {
    if occurs_at(s, marker(), i) {
        14
    } else {
        15
    }
}

/// First index at or after `k` where an output marker starts.
pub open spec fn find_marker(s: Seq<char>, k: int) -> Option<int>
    decreases s.len() + 1 - k,
{
    if k < 0 || k >= s.len() {
        None
    } else if marker_at(s, k) {
        Some(k)
    } else {
        find_marker(s, k + 1)
    }
}

pub proof fn lemma_find_marker(s: Seq<char>, k: int)
    requires
        0 <= k,
    ensures
        find_marker(s, k) matches Some(i) ==> k <= i && marker_at(s, i) && forall|m: int|
            k <= m < i ==> !marker_at(s, m),
        find_marker(s, k) is None ==> forall|m: int| k <= m ==> !marker_at(s, m),
    decreases s.len() + 1 - k,
{
    if k < s.len() && !marker_at(s, k) {
        lemma_find_marker(s, k + 1);
        assert forall|m: int| k <= m && !(k + 1 <= m) implies !marker_at(s, m) by {}
    }
}

/// A line break followed by a fence: the end of an output section.
pub open spec fn close_pat() -> Seq<char> {
    seq!['\n', '`', '`', '`']
}

/// First index at or after `k` where `pat` occurs in `s`.
pub open spec fn find_from(s: Seq<char>, pat: Seq<char>, k: int) -> Option<int>
    decreases s.len() + 1 - k,
{
    if k < 0 || k + pat.len() > s.len() {
        None
    } else if occurs_at(s, pat, k) {
        Some(k)
    } else {
        find_from(s, pat, k + 1)
    }
}

pub proof fn lemma_find_from(s: Seq<char>, pat: Seq<char>, k: int)
    requires
        0 <= k,
    ensures
        find_from(s, pat, k) matches Some(i) ==> k <= i && occurs_at(s, pat, i) && forall|m: int|
            k <= m < i ==> !occurs_at(s, pat, m),
        find_from(s, pat, k) is None ==> forall|m: int| k <= m ==> !occurs_at(s, pat, m),
    decreases s.len() + 1 - k,
{
    if k + pat.len() <= s.len() && !occurs_at(s, pat, k) {
        lemma_find_from(s, pat, k + 1);
        assert forall|m: int| k <= m && !(k + 1 <= m) implies !occurs_at(s, pat, m) by {}
    }
}

/// The range to delete for the first output section: from the line break
/// before the marker (or the marker itself) through the closing fence.
pub open spec fn removal(s: Seq<char>) -> Option<(int, int)> {
    match find_marker(s, 0) {
        None => None,
        Some(i) => match find_from(s, close_pat(), i + marker_len(s, i)) {
            None => None,
            Some(j) => Some(
                (
                    if i > 0 && s[i - 1] == '\n' {
                        i - 1
                    } else {
                        i
                    },
                    j + 4,
                ),
            ),
        },
    }
}

/// A fence ends right before `q` and another begins at `q` or right after a
/// single line break.
pub open spec fn glue_at(s: Seq<char>, q: int) -> bool {
    &&& q >= 3
    &&& occurs_at(s, ticks(), q - 3)
    &&& (occurs_at(s, ticks(), q) || occurs_at(s, close_pat(), q))
}

/// First glue point at or after `k`.
pub open spec fn glue_from(s: Seq<char>, k: int) -> Option<int>
    decreases s.len() + 1 - k,
{
    if k < 0 || k > s.len() {
        None
    } else if glue_at(s, k) {
        Some(k)
    } else {
        glue_from(s, k + 1)
    }
}

pub proof fn lemma_glue_from(s: Seq<char>, k: int)
    requires
        0 <= k,
    ensures
        glue_from(s, k) matches Some(q) ==> k <= q && q + 3 <= s.len() && glue_at(s, q) && forall|
            m: int,
        |
            k <= m < q ==> !glue_at(s, m),
        glue_from(s, k) is None ==> forall|m: int| k <= m ==> !glue_at(s, m),
    decreases s.len() + 1 - k,
{
    if k <= s.len() && !glue_at(s, k) {
        lemma_glue_from(s, k + 1);
        assert forall|m: int| k <= m && !(k + 1 <= m) implies !glue_at(s, m) by {}
    }
    if k > s.len() {
        assert forall|m: int| k <= m implies !glue_at(s, m) by {}
    }
}

/// Separates the fences that meet at `q` by a blank line.
pub open spec fn unglue(s: Seq<char>, q: int) -> Seq<char> {
    s.subrange(0, q) + seq!['\n', '\n'] + if occurs_at(s, ticks(), q) {
        s.subrange(q, s.len() as int)
    } else {
        s.subrange(q + 1, s.len() as int)
    }
}

/// One rewriting step: remove the first output section, or else separate
/// the first glued fences; `None` when the text is clean.
pub open spec fn step(s: Seq<char>) -> Option<Seq<char>> {
    match removal(s) {
        Some((a, b)) => Some(s.subrange(0, a) + s.subrange(b, s.len() as int)),
        None => match glue_from(s, 0) {
            Some(q) => Some(unglue(s, q)),
            None => None,
        },
    }
}

pub open spec fn tick_count(s: Seq<char>) -> nat
    decreases s.len(),
{
    if s.len() == 0 {
        0
    } else {
        tick_count(s.drop_last()) + if s.last() == '`' {
            1nat
        } else {
            0nat
        }
    }
}

pub open spec fn glue_measure(s: Seq<char>) -> nat {
    match glue_from(s, 0) {
        Some(q) => if q <= s.len() {
            (s.len() - q) as nat
        } else {
            0
        },
        None => 0,
    }
}

/// The sanitized text: steps applied until the text is clean.
pub open spec fn sanitized(s: Seq<char>) -> Seq<char>
    decreases tick_count(s), glue_measure(s),
    via sanitized_decreases
{
    match step(s) {
        None => s,
        Some(t) => sanitized(t),
    }
}

proof fn lemma_tick_concat(x: Seq<char>, y: Seq<char>)
    ensures
        tick_count(x + y) == tick_count(x) + tick_count(y),
    decreases y.len(),
{
    if y.len() > 0 {
        lemma_tick_concat(x, y.drop_last());
        assert((x + y).drop_last() =~= x + y.drop_last());
    } else {
        assert(x + y =~= x);
    }
}

proof fn lemma_tick_positive(x: Seq<char>, k: int)
    requires
        0 <= k < x.len(),
        x[k] == '`',
    ensures
        tick_count(x) >= 1,
{
    let l = x.subrange(0, k + 1);
    assert(l.drop_last() =~= x.subrange(0, k));
    lemma_tick_concat(l, x.subrange(k + 1, x.len() as int));
    assert(l + x.subrange(k + 1, x.len() as int) =~= x);
}

pub proof fn lemma_occurs_char(s: Seq<char>, pat: Seq<char>, k: int, m: int)
    requires
        occurs_at(s, pat, k),
        0 <= m < pat.len(),
    ensures
        s[k + m] == pat[m],
{
    assert(s.subrange(k, k + pat.len())[m] == s[k + m]);
}

proof fn lemma_removal_shrinks(s: Seq<char>)
    requires
        removal(s) is Some,
    ensures
        ({
            let (a, b) = removal(s)->0;
            &&& 0 <= a < b <= s.len()
            &&& tick_count(s.subrange(0, a) + s.subrange(b, s.len() as int)) < tick_count(s)
        }),
{
    lemma_find_marker(s, 0);
    let i = find_marker(s, 0)->0;
    lemma_find_from(s, close_pat(), i + marker_len(s, i));
    let j = find_from(s, close_pat(), i + marker_len(s, i))->0;
    let (a, b) = removal(s)->0;
    lemma_occurs_char(s, close_pat(), j, 1);
    let mid = s.subrange(a, b);
    assert(mid[j + 1 - a] == '`');
    lemma_tick_positive(mid, j + 1 - a);
    let pre = s.subrange(0, a);
    let post = s.subrange(b, s.len() as int);
    lemma_tick_concat(pre, mid);
    lemma_tick_concat(pre + mid, post);
    lemma_tick_concat(pre, post);
    assert(pre + mid + post =~= s);
}

proof fn lemma_no_ticks2(nl: Seq<char>)
    requires
        nl == seq!['\n', '\n'] || nl == seq!['\n'],
    ensures
        tick_count(nl) == 0,
{
    assert(tick_count(nl.drop_last()) == 0) by {
        if nl.len() == 2 {
            assert(nl.drop_last().drop_last() =~= Seq::<char>::empty());
            assert(tick_count(nl.drop_last()) == tick_count(nl.drop_last().drop_last()));
        } else {
            assert(nl.drop_last() =~= Seq::<char>::empty());
        }
    }
}

proof fn lemma_unglue_ticks(s: Seq<char>, q: int)
    requires
        glue_at(s, q),
        q + 3 <= s.len(),
    ensures
        tick_count(unglue(s, q)) == tick_count(s),
{
    let pre = s.subrange(0, q);
    let nl = seq!['\n', '\n'];
    let two = occurs_at(s, ticks(), q);
    let rest = if two {
        s.subrange(q, s.len() as int)
    } else {
        s.subrange(q + 1, s.len() as int)
    };
    assert(unglue(s, q) == pre + nl + rest);
    lemma_no_ticks2(nl);
    lemma_tick_concat(pre, nl);
    lemma_tick_concat(pre + nl, rest);
    if two {
        lemma_tick_concat(pre, rest);
        assert(pre + rest =~= s);
    } else {
        let one = seq!['\n'];
        lemma_occurs_char(s, close_pat(), q, 0);
        lemma_no_ticks2(one);
        lemma_tick_concat(one, rest);
        lemma_tick_concat(pre, one + rest);
        assert(pre + (one + rest) =~= s);
    }
}

proof fn lemma_unglue_shape(s: Seq<char>, q: int)
    requires
        glue_at(s, q),
        q + 3 <= s.len(),
    ensures
        ({
            let t = unglue(s, q);
            &&& t.len() >= q + 5
            &&& t[q] == '\n' && t[q + 1] == '\n'
            &&& t[q + 2] == '`' && t[q + 3] == '`' && t[q + 4] == '`'
            &&& forall|k: int| 0 <= k < q ==> t[k] == s[k]
            &&& s[q - 3] == '`' && s[q - 2] == '`' && s[q - 1] == '`'
        }),
{
    let t = unglue(s, q);
    if occurs_at(s, ticks(), q) {
        lemma_occurs_char(s, ticks(), q, 0);
        lemma_occurs_char(s, ticks(), q, 1);
        lemma_occurs_char(s, ticks(), q, 2);
    } else {
        lemma_occurs_char(s, close_pat(), q, 1);
        lemma_occurs_char(s, close_pat(), q, 2);
        lemma_occurs_char(s, close_pat(), q, 3);
    }
    lemma_occurs_char(s, ticks(), q - 3, 0);
    lemma_occurs_char(s, ticks(), q - 3, 1);
    lemma_occurs_char(s, ticks(), q - 3, 2);
}

proof fn lemma_no_glue_near(s: Seq<char>, q: int, m: int)
    requires
        glue_at(s, q),
        q + 3 <= s.len(),
        forall|k: int| 0 <= k < q ==> !glue_at(s, k),
        0 <= m < q + 5,
    ensures
        !glue_at(unglue(s, q), m),
{
    let t = unglue(s, q);
    lemma_unglue_shape(s, q);
    if glue_at(t, m) {
        if m + 4 <= q {
            assert(t.subrange(m - 3, m) =~= s.subrange(m - 3, m));
            if occurs_at(t, ticks(), m) {
                assert(t.subrange(m, m + 3) =~= s.subrange(m, m + 3));
            } else {
                assert(t.subrange(m, m + 4) =~= s.subrange(m, m + 4));
            }
            assert(glue_at(s, m));
        } else if m == q - 3 {
            assert(t.subrange(m - 3, m) =~= s.subrange(m - 3, m));
            assert(glue_at(s, m));
        } else if m == q - 2 || m == q - 1 || m == q {
            if occurs_at(t, ticks(), m) {
                lemma_occurs_char(t, ticks(), m, q + 1 - m);
            } else {
                lemma_occurs_char(t, close_pat(), m, 0);
            }
        } else if m <= q + 3 {
            lemma_occurs_char(t, ticks(), m - 3, q - (m - 3));
        } else {
            lemma_occurs_char(t, ticks(), m - 3, 0);
        }
    }
}

proof fn lemma_unglue(s: Seq<char>)
    requires
        removal(s) is None,
        glue_from(s, 0) is Some,
    ensures
        ({
            let q = glue_from(s, 0)->0;
            let t = unglue(s, q);
            &&& tick_count(t) == tick_count(s)
            &&& glue_measure(t) < glue_measure(s)
        }),
{
    lemma_glue_from(s, 0);
    let q = glue_from(s, 0)->0;
    let t = unglue(s, q);
    lemma_unglue_ticks(s, q);
    lemma_unglue_shape(s, q);
    assert forall|m: int| 0 <= m < q + 5 implies !glue_at(t, m) by {
        lemma_no_glue_near(s, q, m);
    }
    lemma_glue_from(t, 0);
    assert(t.len() <= s.len() + 2);
    match glue_from(t, 0) {
        Some(q2) => {
            assert(q2 >= q + 5);
        },
        None => {},
    }
}

#[via_fn]
proof fn sanitized_decreases(s: Seq<char>) {
    if removal(s) is Some {
        lemma_removal_shrinks(s);
    } else if glue_from(s, 0) is Some {
        lemma_unglue(s);
    }
}

/// A sanitized text admits no further step.
pub proof fn lemma_sanitized_clean(s: Seq<char>)
    ensures
        step(sanitized(s)) is None,
    decreases tick_count(s), glue_measure(s),
{
    if removal(s) is Some {
        lemma_removal_shrinks(s);
        let (a, b) = removal(s)->0;
        lemma_sanitized_clean(s.subrange(0, a) + s.subrange(b, s.len() as int));
    } else if glue_from(s, 0) is Some {
        lemma_unglue(s);
        lemma_sanitized_clean(unglue(s, glue_from(s, 0)->0));
    }
}

/// Sanitizing is idempotent: sanitizing a sanitized text changes nothing.
pub proof fn law_sanitize_idempotent(d: Seq<char>)
    ensures
        sanitized(sanitized(d)) == sanitized(d),
{
    lemma_sanitized_clean(d);
}

fn find_exec(s: &Vec<char>, pat: &Vec<char>, k: usize) -> (r: Option<usize>)
    requires
        pat.len() > 0,
    ensures
        r matches Some(i) ==> find_from(s@, pat@, k as int) == Some(i as int),
        r is None ==> find_from(s@, pat@, k as int) is None,
{
    let mut i = k;
    while i <= s.len() && pat.len() <= s.len() - i
        invariant
            k <= i,
            pat.len() > 0,
            find_from(s@, pat@, k as int) == find_from(s@, pat@, i as int),
        decreases s.len() + 1 - i,
    {
        if matches_at(s, pat, i) {
            return Some(i);
        }
        i += 1;
    }
    None
}

fn find_marker_exec(s: &Vec<char>) -> (r: Option<usize>)
    ensures
        r matches Some(i) ==> find_marker(s@, 0) == Some(i as int),
        r is None ==> find_marker(s@, 0) is None,
{
    let mk = vec!['*', '*', 'O', 'u', 't', 'p', 'u', 't', '*', '*', '\n', '`', '`', '`'];
    let mc = vec!['*', '*', 'O', 'u', 't', 'p', 'u', 't', ':', '*', '*', '\n', '`', '`', '`'];
    assert(mk@ =~= marker());
    assert(mc@ =~= marker_colon());
    let mut i: usize = 0;
    while i < s.len()
        invariant
            i <= s.len(),
            mk@ == marker(),
            mc@ == marker_colon(),
            find_marker(s@, 0) == find_marker(s@, i as int),
        decreases s.len() - i,
    {
        if matches_at(s, &mk, i) || matches_at(s, &mc, i) {
            return Some(i);
        }
        i += 1;
    }
    None
}

fn removal_exec(s: &Vec<char>) -> (r: Option<(usize, usize)>)
    ensures
        r matches Some((a, b)) ==> removal(s@) == Some((a as int, b as int)),
        r is None ==> removal(s@) is None,
{
    let mk = vec!['*', '*', 'O', 'u', 't', 'p', 'u', 't', '*', '*', '\n', '`', '`', '`'];
    let cp = vec!['\n', '`', '`', '`'];
    assert(mk@ =~= marker());
    assert(cp@ =~= close_pat());
    proof {
        lemma_find_marker(s@, 0);
    }
    match find_marker_exec(s) {
        None => None,
        Some(i) => {
            let ml: usize = if matches_at(s, &mk, i) {
                14
            } else {
                15
            };
            assert(ml == marker_len(s@, i as int));
            assert(i + ml <= s.len());
            proof {
                lemma_find_from(s@, close_pat(), i + ml);
            }
            match find_exec(s, &cp, i + ml) {
                None => None,
                Some(j) => {
                    assert(find_from(s@, close_pat(), (i + ml) as int) == Some(j as int));
                    assert(j + 4 <= s.len());
                    let a = if i > 0 && s[i - 1] == '\n' {
                        i - 1
                    } else {
                        i
                    };
                    Some((a, j + 4))
                },
            }
        },
    }
}

fn glue_exec(s: &Vec<char>) -> (r: Option<usize>)
    ensures
        r matches Some(q) ==> glue_from(s@, 0) == Some(q as int),
        r is None ==> glue_from(s@, 0) is None,
{
    let tk = vec!['`', '`', '`'];
    let cp = vec!['\n', '`', '`', '`'];
    assert(tk@ =~= ticks());
    assert(cp@ =~= close_pat());
    let mut q: usize = 0;
    while q < s.len()
        invariant
            q <= s.len(),
            tk@ == ticks(),
            cp@ == close_pat(),
            glue_from(s@, 0) == glue_from(s@, q as int),
        decreases s.len() - q,
    {
        if q >= 3 && matches_at(s, &tk, q - 3) && (matches_at(s, &tk, q) || matches_at(s, &cp, q)) {
            return Some(q);
        }
        q += 1;
    }
    assert(!glue_at(s@, q as int));
    assert(glue_from(s@, q + 1) is None);
    None
}

/// Removes every previously inserted output section and separates glued
/// fences by a blank line.
pub fn clear_outputs(content: &str) -> (r: String)
    ensures
        r@ == sanitized(content@),
{
    let mut cur = chars_of(content);
    loop
        invariant
            sanitized(cur@) == sanitized(content@),
        decreases tick_count(cur@), glue_measure(cur@),
    {
        match removal_exec(&cur) {
            Some((a, b)) => {
                proof {
                    lemma_removal_shrinks(cur@);
                }
                let mut next = Vec::new();
                push_range(&mut next, &cur, 0, a);
                push_range(&mut next, &cur, b, cur.len());
                cur = next;
            },
            None => match glue_exec(&cur) {
                Some(q) => {
                    proof {
                        lemma_unglue(cur@);
                        lemma_glue_from(cur@, 0);
                    }
                    let mut next = Vec::new();
                    push_range(&mut next, &cur, 0, q);
                    next.push('\n');
                    next.push('\n');
                    let tk = vec!['`', '`', '`'];
                    assert(tk@ =~= ticks());
                    if matches_at(&cur, &tk, q) {
                        push_range(&mut next, &cur, q, cur.len());
                    } else {
                        push_range(&mut next, &cur, q + 1, cur.len());
                    }
                    assert(next@ =~= unglue(cur@, q as int));
                    cur = next;
                },
                None => {
                    assert(step(cur@) is None);
                    assert(sanitized(cur@) == cur@);
                    return string_of(&cur);
                },
            },
        }
    }
}

} // verus!
