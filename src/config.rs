//! The language-to-command mapping and its built-in default.
use vstd::prelude::*;

verus! {

/// A mapping from language tokens to command templates.
pub struct Config {
    pub languages: Vec<(String, String)>,
}

pub open spec fn entry_views(v: Seq<(String, String)>) -> Seq<(Seq<char>, Seq<char>)> {
    v.map_values(|e: (String, String)| (e.0@, e.1@))
}

/// The built-in mapping, used when no configuration file exists.
pub open spec fn default_entries() -> Seq<(Seq<char>, Seq<char>)> {
    seq![
        ("python"@, "python3 {file}"@),
        ("py"@, "python3 {file}"@),
        ("racket"@, "racket {file}"@),
        ("bash"@, "bash {file}"@),
        ("sh"@, "sh {file}"@),
        ("javascript"@, "node {file}"@),
        ("js"@, "node {file}"@),
        ("ruby"@, "ruby {file}"@),
        ("php"@, "php {file}"@),
        ("julia"@, "julia {file}"@),
        ("lua"@, "lua {file}"@),
        ("r"@, "Rscript {file}"@),
        ("rust"@, "sh -c 'rustc {file} -o /tmp/runmd_rust && /tmp/runmd_rust'"@),
        ("go"@, "go run {file}"@),
        ("java"@, "sh -c 'javac {file} && java $(basename {file} .java)'"@),
        ("cpp"@, "sh -c 'g++ {file} -o /tmp/runmd_cpp && /tmp/runmd_cpp'"@),
        ("c"@, "sh -c 'gcc {file} -o /tmp/runmd_c && /tmp/runmd_c'"@),
    ]
}

fn add_entry(v: &mut Vec<(String, String)>, k: &str, t: &str)
    ensures
        entry_views(final(v)@) == entry_views(old(v)@).push((k@, t@)),
{
    let ghost before = v@;
    v.push((k.to_owned(), t.to_owned()));
    assert(entry_views(v@) =~= entry_views(before).push((k@, t@)));
}

impl Default for Config {
    fn default() -> (r: Self)
        ensures
            entry_views(r.languages@) == default_entries(),
    {
        let mut languages: Vec<(String, String)> = Vec::new();
        assert(entry_views(languages@) =~= Seq::empty());
        add_entry(&mut languages, "python", "python3 {file}");
        add_entry(&mut languages, "py", "python3 {file}");
        add_entry(&mut languages, "racket", "racket {file}");
        add_entry(&mut languages, "bash", "bash {file}");
        add_entry(&mut languages, "sh", "sh {file}");
        add_entry(&mut languages, "javascript", "node {file}");
        add_entry(&mut languages, "js", "node {file}");
        add_entry(&mut languages, "ruby", "ruby {file}");
        add_entry(&mut languages, "php", "php {file}");
        add_entry(&mut languages, "julia", "julia {file}");
        add_entry(&mut languages, "lua", "lua {file}");
        add_entry(&mut languages, "r", "Rscript {file}");
        add_entry(&mut languages, "rust", "sh -c 'rustc {file} -o /tmp/runmd_rust && /tmp/runmd_rust'");
        add_entry(&mut languages, "go", "go run {file}");
        add_entry(&mut languages, "java", "sh -c 'javac {file} && java $(basename {file} .java)'");
        add_entry(&mut languages, "cpp", "sh -c 'g++ {file} -o /tmp/runmd_cpp && /tmp/runmd_cpp'");
        add_entry(&mut languages, "c", "sh -c 'gcc {file} -o /tmp/runmd_c && /tmp/runmd_c'");
        assert(entry_views(languages@) =~= default_entries());
        Config { languages }
    }
}

} // verus!
