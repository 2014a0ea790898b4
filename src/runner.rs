//! The decisions of the sandbox runner: how a block's temporary file is
//! named, which command runs it, how its source is adjusted, and which text
//! stands for its result. Spawning the process is left to the caller.
use vstd::prelude::*;
use crate::languages::{file_placeholder, replace_all, same_text, split_words, string_views, Languages};
use crate::text::{
    alnum, char_is_alphanumeric, chars_of, is_ws_char, matches_at, occurs_at, push_all, push_range,
    string_of, trim, trim_bounds, trim_start,
};

verus! {

/// What `str::to_lowercase` returns.
pub uninterp spec fn lower_of(s: Seq<char>) -> Seq<char>;

/// Relies on `str::to_lowercase`: the result depends on the characters alone.
#[verifier::external_body]
fn lowercase(s: &str) -> (r: String)
    ensures
        r@ == lower_of(s@),
{
    s.to_lowercase()
}

pub open spec fn all_alnum(s: Seq<char>) -> bool {
    forall|k: int| 0 <= k < s.len() ==> alnum(#[trigger] s[k])
}

/// Suffix of a block's temporary file: `.` and the language token when the
/// token is purely alphanumeric, else none.
pub fn temp_suffix(language: &str) -> (r: String)
    ensures
        r@ == if all_alnum(language@) {
            seq!['.'] + language@
        } else {
            Seq::empty()
        },
{
    let l = chars_of(language);
    let mut i: usize = 0;
    while i < l.len()
        invariant
            i <= l.len(),
            l@ == language@,
            forall|k: int| 0 <= k < i ==> alnum(#[trigger] l@[k]),
        decreases l.len() - i,
    {
        if !char_is_alphanumeric(l[i]) {
            return string_of(&Vec::new());
        }
        i += 1;
    }
    let mut out = vec!['.'];
    push_all(&mut out, &l);
    string_of(&out)
}

fn concat2(a: &str, b: &str) -> (r: String)
    ensures
        r@ == a@ + b@,
{
    let mut out = chars_of(a);
    push_all(&mut out, &chars_of(b));
    string_of(&out)
}

fn concat3(a: &str, b: &str, c: &str) -> (r: String)
    ensures
        r@ == a@ + b@ + c@,
{
    let mut out = chars_of(a);
    push_all(&mut out, &chars_of(b));
    push_all(&mut out, &chars_of(c));
    string_of(&out)
}

pub fn unsupported_message(language: &str) -> (r: String)
    ensures
        r@ == "[error] Language '"@ + language@ + "' not supported."@,
{
    concat3("[error] Language '", language, "' not supported.")
}

pub fn invalid_command_message() -> (r: String)
    ensures
        r@ == "[error] Invalid command configuration."@,
{
    "[error] Invalid command configuration.".to_owned()
}

pub fn missing_interpreter_message(language: &str) -> (r: String)
    ensures
        r@ == "[error] Required interpreter/compiler for '"@ + language@ + "' is not installed."@,
{
    concat3("[error] Required interpreter/compiler for '", language, "' is not installed.")
}

pub fn spawn_error_message(cause: &str) -> (r: String)
    ensures
        r@ == "[error] "@ + cause@,
{
    concat2("[error] ", cause)
}

pub fn timed_out_message() -> (r: String)
    ensures
        r@ == "[error] execution timed out"@,
{
    "[error] execution timed out".to_owned()
}

/// The command that runs `file_path` as `language`, or the text that stands
/// for the block's output when there is none.
pub fn plan_command(languages: &Languages, language: &str, file_path: &str) -> (r: Result<
    Vec<String>,
    String,
>)
    ensures
        match languages.lookup(language@) {
            None => r matches Err(m) && m@ == "[error] Language '"@ + language@
                + "' not supported."@,
            Some(t) => {
                let words = split_words(replace_all(t, file_placeholder(), file_path@));
                if words.len() == 0 {
                    r matches Err(m) && m@ == "[error] Invalid command configuration."@
                } else {
                    r matches Ok(c) && string_views(c@) == words
                }
            },
        },
{
    match languages.get_command(language, file_path) {
        None => Err(unsupported_message(language)),
        Some(parts) => {
            if parts.len() == 0 {
                Err(invalid_command_message())
            } else {
                Ok(parts)
            }
        },
    }
}

pub open spec fn lang_pragma() -> Seq<char> {
    seq!['#', 'l', 'a', 'n', 'g']
}

/// A racket block gets a `#lang racket` line in front unless its source
/// already begins with a language pragma.
pub open spec fn needs_racket_pragma(language: Seq<char>, code: Seq<char>) -> bool {
    lower_of(language) == "racket"@ && !occurs_at(trim_start(code), lang_pragma(), 0)
}

/// The adjusted source of a block, when it needs one.
pub fn racket_source(language: &str, code: &str) -> (r: Option<String>)
    ensures
        needs_racket_pragma(language@, code@) ==> (r matches Some(s) && s@ == "#lang racket\n"@
            + code@),
        !needs_racket_pragma(language@, code@) ==> r is None,
{
    let lower = lowercase(language);
    if !same_text(lower.as_str(), "racket") {
        return None;
    }
    let c = chars_of(code);
    let mut a: usize = 0;
    assert(c@.subrange(0, c@.len() as int) =~= c@);
    while a < c.len() && is_ws_char(c[a])
        invariant
            a <= c.len(),
            trim_start(c@) == trim_start(c@.subrange(a as int, c@.len() as int)),
        decreases c.len() - a,
    {
        assert(c@.subrange(a as int, c@.len() as int).drop_first() =~= c@.subrange(
            a + 1,
            c@.len() as int,
        ));
        a += 1;
    }
    if a == 0 {
        assert(c@.subrange(0, c@.len() as int) =~= c@);
    }
    let ghost t = c@.subrange(a as int, c@.len() as int);
    assert(trim_start(t) == t);
    let pragma = vec!['#', 'l', 'a', 'n', 'g'];
    assert(pragma@ =~= lang_pragma());
    let found = matches_at(&c, &pragma, a);
    proof {
        if found {
            assert(t.subrange(0, 5) =~= c@.subrange(a as int, a + 5));
        }
        if occurs_at(t, lang_pragma(), 0) {
            assert(t.subrange(0, 5) =~= c@.subrange(a as int, a + 5));
        }
    }
    if found {
        return None;
    }
    Some(concat2("#lang racket\n", code))
}

/// The text that stands for a finished process: its trimmed standard output
/// when it succeeded or wrote to standard output, else its trimmed standard
/// error.
pub fn select_output(success: bool, stdout: &str, stderr: &str) -> (r: String)
    ensures
        r@ == if success || stdout@.len() > 0 {
            trim(stdout@)
        } else {
            trim(stderr@)
        },
{
    let so = chars_of(stdout);
    let s = if success || so.len() > 0 {
        so
    } else {
        chars_of(stderr)
    };
    let (a, b) = trim_bounds(&s, 0, s.len());
    assert(s@.subrange(0, s@.len() as int) =~= s@);
    let mut out: Vec<char> = Vec::new();
    push_range(&mut out, &s, a, b);
    string_of(&out)
}

} // verus!
