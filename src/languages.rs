//! Language resolver: the mapping from a language token to a command
//! template, and the template's expansion into an argument list.
use vstd::prelude::*;
use crate::text::{chars_of, is_ws, is_ws_char, matches_at, occurs_at, push_all, string_of};

verus! {

/// The first template that `entries` maps `language` to.
pub open spec fn lookup_in(entries: Seq<(String, String)>, language: Seq<char>) -> Option<Seq<char>>
    decreases entries.len(),
{
    if entries.len() == 0 {
        None
    } else if entries[0].0@ == language {
        Some(entries[0].1@)
    } else {
        lookup_in(entries.drop_first(), language)
    }
}

/// `str::replace`: every non-overlapping occurrence of `pat`, left to right,
/// replaced by `rep`.
pub open spec fn replace_all(s: Seq<char>, pat: Seq<char>, rep: Seq<char>) -> Seq<char>
    decreases s.len(),
{
    if s.len() == 0 || pat.len() == 0 {
        s
    } else if occurs_at(s, pat, 0) {
        rep + replace_all(s.subrange(pat.len() as int, s.len() as int), pat, rep)
    } else {
        seq![s[0]] + replace_all(s.drop_first(), pat, rep)
    }
}

pub open spec fn file_placeholder() -> Seq<char> {
    seq!['{', 'f', 'i', 'l', 'e', '}']
}

/// State of the shell-style splitter after a prefix of its input.
pub struct SplitState {
    pub words: Seq<Seq<char>>,
    pub current: Seq<char>,
    pub in_quotes: bool,
    pub escape_next: bool,
}

/// A backslash makes the next character literal, double quotes group, and
/// whitespace outside quotes separates words.
pub open spec fn split_step(st: SplitState, c: char) -> SplitState {
    if st.escape_next {
        SplitState { current: st.current.push(c), escape_next: false, ..st }
    } else if c == '\\' {
        SplitState { escape_next: true, ..st }
    } else if c == '"' {
        SplitState { in_quotes: !st.in_quotes, ..st }
    } else if is_ws(c) && !st.in_quotes {
        if st.current.len() > 0 {
            SplitState { words: st.words.push(st.current), current: Seq::empty(), ..st }
        } else {
            st
        }
    } else {
        SplitState { current: st.current.push(c), ..st }
    }
}

pub open spec fn split_run(s: Seq<char>) -> SplitState
    decreases s.len(),
{
    if s.len() == 0 {
        SplitState { words: Seq::empty(), current: Seq::empty(), in_quotes: false, escape_next: false }
    } else {
        split_step(split_run(s.drop_last()), s.last())
    }
}

/// The words of a command line.
pub open spec fn split_words(s: Seq<char>) -> Seq<Seq<char>> {
    let st = split_run(s);
    if st.current.len() > 0 {
        st.words.push(st.current)
    } else {
        st.words
    }
}

pub open spec fn string_views(v: Seq<String>) -> Seq<Seq<char>> {
    v.map_values(|w: String| w@)
}

/// Splits a command line into words, shell style.
pub fn split(input: &str) -> (r: Result<Vec<String>, ()>)
    ensures
        r matches Ok(w) && string_views(w@) == split_words(input@),
{
    let s = chars_of(input);
    let mut words: Vec<String> = Vec::new();
    let mut current: Vec<char> = Vec::new();
    let mut in_quotes = false;
    let mut escape_next = false;
    let mut i: usize = 0;
    while i < s.len()
        invariant
            i <= s.len(),
            s@ == input@,
            ({
                let st = split_run(s@.subrange(0, i as int));
                &&& string_views(words@) == st.words
                &&& current@ == st.current
                &&& in_quotes == st.in_quotes
                &&& escape_next == st.escape_next
            }),
        decreases s.len() - i,
    {
        let ch = s[i];
        assert(s@.subrange(0, i + 1).drop_last() =~= s@.subrange(0, i as int));
        let ghost before = words@;
        if escape_next {
            current.push(ch);
            escape_next = false;
        } else if ch == '\\' {
            escape_next = true;
        } else if ch == '"' {
            in_quotes = !in_quotes;
        } else if is_ws_char(ch) && !in_quotes {
            if current.len() > 0 {
                words.push(string_of(&current));
                assert(string_views(words@) =~= string_views(before).push(current@));
                current = Vec::new();
            }
        } else {
            current.push(ch);
        }
        i += 1;
    }
    assert(s@.subrange(0, i as int) =~= s@);
    if current.len() > 0 {
        let ghost before = words@;
        words.push(string_of(&current));
        assert(string_views(words@) =~= string_views(before).push(current@));
    }
    Ok(words)
}

/// Replaces every `{file}` of a template by `path`.
pub fn substitute_file(template: &str, path: &str) -> (r: String)
    ensures
        r@ == replace_all(template@, file_placeholder(), path@),
{
    let s = chars_of(template);
    let p = chars_of(path);
    let pat = vec!['{', 'f', 'i', 'l', 'e', '}'];
    assert(pat@ =~= file_placeholder());
    let mut out: Vec<char> = Vec::new();
    let mut i: usize = 0;
    assert(s@.subrange(0, s@.len() as int) =~= s@);
    while i < s.len()
        invariant
            i <= s.len(),
            pat@ == file_placeholder(),
            out@ + replace_all(s@.subrange(i as int, s@.len() as int), pat@, p@) == replace_all(
                template@,
                pat@,
                p@,
            ),
            s@ == template@,
            p@ == path@,
        decreases s.len() - i,
    {
        let ghost rest = s@.subrange(i as int, s@.len() as int);
        let ghost before = out@;
        if matches_at(&s, &pat, i) {
            assert(rest.subrange(0, 6) =~= s@.subrange(i as int, i + 6));
            assert(rest.subrange(6, rest.len() as int) =~= s@.subrange(i + 6, s@.len() as int));
            push_all(&mut out, &p);
            assert(out@ + replace_all(s@.subrange(i + 6, s@.len() as int), pat@, p@) =~= before
                + replace_all(rest, pat@, p@));
            i += 6;
        } else {
            proof {
                if occurs_at(rest, pat@, 0) {
                    assert(rest.subrange(0, 6) =~= s@.subrange(i as int, i + 6));
                }
            }
            out.push(s[i]);
            assert(rest.drop_first() =~= s@.subrange(i + 1, s@.len() as int));
            assert(out@ + replace_all(s@.subrange(i + 1, s@.len() as int), pat@, p@) =~= before
                + replace_all(rest, pat@, p@));
            i += 1;
        }
    }
    assert(s@.subrange(i as int, s@.len() as int) =~= Seq::<char>::empty());
    string_of(&out)
}

/// Whether two strings hold the same characters.
pub fn same_text(a: &str, b: &str) -> (r: bool)
    ensures
        r == (a@ == b@),
{
    let x = chars_of(a);
    let y = chars_of(b);
    same_chars(&x, &y)
}

/// No two entries share a language token.
pub open spec fn unique_keys(entries: Seq<(String, String)>) -> bool {
    forall|i: int, j: int|
        0 <= i < entries.len() && 0 <= j < entries.len() && i != j ==> entries[i].0@ != entries[j].0@
}

proof fn lemma_lookup_push(x: Seq<(String, String)>, e: (String, String), l: Seq<char>)
    ensures
        lookup_in(x.push(e), l) == if lookup_in(x, l) is Some {
            lookup_in(x, l)
        } else if e.0@ == l {
            Some(e.1@)
        } else {
            None
        },
    decreases x.len(),
{
    if x.len() == 0 {
        assert(x.push(e)[0] == e);
        assert(x.push(e).drop_first() =~= Seq::<(String, String)>::empty());
        assert(lookup_in(x.push(e).drop_first(), l) is None);
    } else {
        assert(x.push(e)[0] == x[0]);
        assert(x.push(e).drop_first() =~= x.drop_first().push(e));
        lemma_lookup_push(x.drop_first(), e, l);
    }
}

proof fn lemma_lookup_some(x: Seq<(String, String)>, l: Seq<char>)
    ensures
        lookup_in(x, l) is Some <==> exists|j: int| 0 <= j < x.len() && x[j].0@ == l,
    decreases x.len(),
{
    if x.len() > 0 {
        lemma_lookup_some(x.drop_first(), l);
        if exists|j: int| 0 <= j < x.len() && x[j].0@ == l {
            let j = choose|j: int| 0 <= j < x.len() && x[j].0@ == l;
            if j > 0 {
                assert(x.drop_first()[j - 1] == x[j]);
            }
        }
        if exists|j: int| 0 <= j < x.drop_first().len() && x.drop_first()[j].0@ == l {
            let j = choose|j: int| 0 <= j < x.drop_first().len() && x.drop_first()[j].0@ == l;
            assert(x[j + 1] == x.drop_first()[j]);
        }
    }
}

/// Maps language tokens to command templates that hold a `{file}`
/// placeholder; each token has one entry.
pub struct Languages {
    mappings: Vec<(String, String)>,
}

impl Languages {
    /// Keeps, for each token, its first entry.
    pub fn new(mappings: Vec<(String, String)>) -> (r: Self)
        ensures
            r.wf(),
            forall|l: Seq<char>| r.lookup(l) == lookup_in(mappings@, l),
    {
        let mut kept: Vec<(String, String)> = Vec::new();
        let mut i: usize = 0;
        while i < mappings.len()
            invariant
                i <= mappings.len(),
                unique_keys(kept@),
                forall|l: Seq<char>|
                    lookup_in(kept@, l) == lookup_in(mappings@.subrange(0, i as int), l),
            decreases mappings.len() - i,
        {
            let mut found = false;
            let mut k: usize = 0;
            while k < kept.len()
                invariant
                    k <= kept.len(),
                    i < mappings.len(),
                    found == exists|j: int| 0 <= j < k && kept@[j].0@ == mappings@[i as int].0@,
                decreases kept.len() - k,
            {
                if same_text(kept[k].0.as_str(), mappings[i].0.as_str()) {
                    found = true;
                }
                k += 1;
            }
            let ghost before = kept@;
            let ghost e = mappings@[i as int];
            proof {
                assert(mappings@.subrange(0, i + 1) =~= mappings@.subrange(0, i as int).push(e));
                assert forall|l: Seq<char>| lookup_in(mappings@.subrange(0, i + 1), l)
                    == if lookup_in(before, l) is Some {
                    lookup_in(before, l)
                } else if e.0@ == l {
                    Some(e.1@)
                } else {
                    None
                } by {
                    lemma_lookup_push(mappings@.subrange(0, i as int), e, l);
                }
                lemma_lookup_some(before, e.0@);
            }
            if !found {
                kept.push((mappings[i].0.clone(), mappings[i].1.clone()));
                proof {
                    assert(kept@ == before.push(e));
                    assert forall|l: Seq<char>| lookup_in(kept@, l) == lookup_in(
                        mappings@.subrange(0, i + 1),
                        l,
                    ) by {
                        lemma_lookup_push(before, e, l);
                    }
                }
            } else {
                assert forall|l: Seq<char>| lookup_in(kept@, l) == lookup_in(
                    mappings@.subrange(0, i + 1),
                    l,
                ) by {
                    if l == e.0@ {
                        lemma_lookup_some(before, l);
                    }
                }
            }
            i += 1;
        }
        assert(mappings@.subrange(0, mappings@.len() as int) =~= mappings@);
        Languages { mappings: kept }
    }

    /// Each token has one entry.
    pub closed spec fn wf(&self) -> bool {
        unique_keys(self.mappings@)
    }

    pub closed spec fn lookup(&self, language: Seq<char>) -> Option<Seq<char>> {
        lookup_in(self.mappings@, language)
    }

    /// The template for a language token.
    pub fn template(&self, language: &str) -> (r: Option<&String>)
        ensures
            match self.lookup(language@) {
                Some(t) => r matches Some(x) && x@ == t,
                None => r is None,
            },
    {
        let mut i: usize = 0;
        assert(self.mappings@.subrange(0, self.mappings@.len() as int) =~= self.mappings@);
        while i < self.mappings.len()
            invariant
                i <= self.mappings.len(),
                self.lookup(language@) == lookup_in(
                    self.mappings@.subrange(i as int, self.mappings@.len() as int),
                    language@,
                ),
            decreases self.mappings.len() - i,
        {
            let ghost rest = self.mappings@.subrange(i as int, self.mappings@.len() as int);
            assert(rest.drop_first() =~= self.mappings@.subrange(i + 1, self.mappings@.len() as int));
            if same_text(self.mappings[i].0.as_str(), language) {
                return Some(&self.mappings[i].1);
            }
            i += 1;
        }
        None
    }

    /// The command for running `file_path` as `language`: the template with
    /// `{file}` replaced, split into words.
    pub fn get_command(&self, language: &str, file_path: &str) -> (r: Option<Vec<String>>)
        ensures
            match self.lookup(language@) {
                Some(t) => r matches Some(c) && string_views(c@) == split_words(
                    replace_all(t, file_placeholder(), file_path@),
                ),
                None => r is None,
            },
    {
        match self.template(language) {
            None => None,
            Some(t) => {
                let command_str = substitute_file(t.as_str(), file_path);
                match split(command_str.as_str()) {
                    Ok(words) => Some(words),
                    Err(_) => Some(vec![command_str]),
                }
            },
        }
    }

    /// A command run through `sh` or `bash` needs no probe: those shells
    /// are taken to be present.
    pub fn assumed_present(command: &Vec<String>) -> (r: bool)
        ensures
            r == (command@.len() > 0 && (command@[0]@ == seq!['s', 'h'] || command@[0]@ == seq![
                'b',
                'a',
                's',
                'h',
            ])),
    {
        if command.len() == 0 {
            return false;
        }
        let first = chars_of(command[0].as_str());
        let sh = vec!['s', 'h'];
        let bash = vec!['b', 'a', 's', 'h'];
        proof {
            assert(sh@ =~= seq!['s', 'h']);
            assert(bash@ =~= seq!['b', 'a', 's', 'h']);
        }
        same_chars(&first, &sh) || same_chars(&first, &bash)
    }
}

fn same_chars(x: &Vec<char>, y: &Vec<char>) -> (r: bool)
    ensures
        r == (x@ == y@),
{
    if x.len() != y.len() {
        return false;
    }
    let mut i: usize = 0;
    while i < x.len()
        invariant
            i <= x.len() == y.len(),
            forall|k: int| 0 <= k < i ==> x@[k] == y@[k],
        decreases x.len() - i,
    {
        if x[i] != y[i] {
            assert(x@[i as int] != y@[i as int]);
            return false;
        }
        i += 1;
    }
    assert(x@ =~= y@);
    true
}

} // verus!
