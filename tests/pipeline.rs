use runmd::config::Config;
use runmd::fence::find_all_code_blocks;
use runmd::languages::{split, Languages};
use runmd::runner::{
    invalid_command_message, missing_interpreter_message, plan_command, racket_source,
    select_output, spawn_error_message, temp_suffix, timed_out_message, unsupported_message,
};
use runmd::sanitize::clear_outputs;
use runmd::schedule::{arrange_outputs, timeout_secs, use_parallel, Prepared};

fn outputs_for(doc: &Prepared, results: Vec<(usize, String)>) -> Vec<Option<String>> {
    arrange_outputs(doc.block_count(), results)
}

#[test]
fn test_clear_outputs() {
    let content = "# Test\n\n```python\nprint(\"hello\")\n```\n**Output**\n```\nhello\n```";
    let result = clear_outputs(content);
    assert!(!result.contains("**Output**"));
    assert!(!result.contains("hello\n```"));
    assert_eq!(result, "# Test\n\n```python\nprint(\"hello\")\n```");
}

#[test]
fn sanitize_is_idempotent_on_samples() {
    let samples = [
        "",
        "plain text",
        "```py\nx\n```\n**Output**\n```\n1\n```",
        "**Output**\n``````",
        "```\n```\n```",
        "a``````b``````c",
        "```js\n1\n```**Output**\n```\nx\n```\n**Output**\n```\ny\n```",
        "**Output**\n```dangling",
    ];
    for d in samples.iter() {
        let once = clear_outputs(d);
        let twice = clear_outputs(&once);
        assert_eq!(once, twice, "input {:?}", d);
    }
}

#[test]
fn sanitize_separates_glued_fences() {
    assert_eq!(clear_outputs("```\n```"), "```\n\n```");
    assert_eq!(clear_outputs("``````"), "```\n\n```");
    assert_eq!(clear_outputs("no fences"), "no fences");
}

#[test]
fn sanitize_removes_marker_without_leading_newline() {
    assert_eq!(clear_outputs("```sh\nls\n```**Output**\n```\na\n```\ntail"), "```sh\nls\n```\ntail");
}

#[test]
fn sanitize_keeps_marker_without_closing_fence() {
    assert_eq!(clear_outputs("**Output**\n```\nnever closed"), "**Output**\n```\nnever closed");
}

#[test]
fn tokenizer_finds_block_and_span() {
    let doc = "# T\n```bash\necho \"hi\"\n```";
    let blocks = find_all_code_blocks(doc);
    assert_eq!(blocks.len(), 1);
    let b = &blocks[0];
    assert_eq!(b.language_text(), "bash");
    assert_eq!(b.code_text(), "echo \"hi\"");
    assert_eq!(b.fence_info_text(), "bash");
    assert_eq!(b.start_pos, 4);
    assert_eq!(b.end_pos, doc.chars().count());
    assert!(!b.skip);
}

#[test]
fn tokenizer_reads_modifiers() {
    let doc = "```py -nr\na\n```\n```py x --no-run\nb\n```\n```py -nrx\nc\n```\n";
    let blocks = find_all_code_blocks(doc);
    assert_eq!(blocks.len(), 3);
    assert!(blocks[0].skip);
    assert_eq!(blocks[0].fence_info_text(), "py -nr");
    assert!(blocks[1].skip);
    assert!(!blocks[2].skip);
    assert_eq!(blocks[0].end_pos, blocks[1].start_pos);
}

#[test]
fn tokenizer_rejects_bad_language_token() {
    let doc = "```c++\nint x;\n```\n```rust\nfn main() {}\n```";
    let blocks = find_all_code_blocks(doc);
    assert_eq!(blocks.len(), 1);
    assert_eq!(blocks[0].language_text(), "rust");
}

#[test]
fn tokenizer_unterminated_fence_stops_scan() {
    let doc = "```sh\necho a\n```\ntext\n```python\nprint(1)\n```\n```sh\nnot reached";
    let blocks = find_all_code_blocks(doc);
    assert_eq!(blocks.len(), 2);
    assert_eq!(blocks[1].language_text(), "python");
    let doc2 = "```sh\necho a\n```\n```python\nprint(1)";
    let blocks2 = find_all_code_blocks(doc2);
    assert_eq!(blocks2.len(), 1);
}

#[test]
fn tokenizer_empty_code_and_indented_closer() {
    let doc = "```sh\n   ```  \nafter";
    let blocks = find_all_code_blocks(doc);
    assert_eq!(blocks.len(), 1);
    assert_eq!(blocks[0].code_text(), "");
    assert_eq!(blocks[0].end_pos, 15);
}

#[test]
fn unterminated_fence_keeps_dangling_text() {
    let doc = "```sh\necho a\n```\n\n```python\nprint(1)";
    let prepared = Prepared::prepare(doc);
    let jobs = prepared.jobs();
    assert_eq!(jobs.len(), 1);
    assert_eq!(jobs[0].language, "sh");
    let outs = outputs_for(&prepared, vec![(0, "a".to_string())]);
    let result = prepared.render(&outs);
    assert_eq!(result, "```sh\necho a\n```\n**Output**\n```\na\n```\n\n```python\nprint(1)");
}

#[test]
fn process_then_clear_restores_document() {
    let doc = "# T\n```bash\necho \"hi\"\n```";
    let prepared = Prepared::prepare(doc);
    assert_eq!(prepared.text(), doc);
    let jobs = prepared.jobs();
    assert_eq!(jobs.len(), 1);
    assert_eq!(jobs[0].index, 0);
    assert_eq!(jobs[0].code, "echo \"hi\"");
    assert_eq!(jobs[0].timeout_secs, 5);
    let outs = outputs_for(&prepared, vec![(0, "hi\n".to_string())]);
    let processed = prepared.render(&outs);
    assert_eq!(processed, "# T\n```bash\necho \"hi\"\n```\n**Output**\n```\nhi\n```");
    assert_eq!(clear_outputs(&processed), doc);
}

#[test]
fn rerun_keeps_code_fences() {
    let doc = "Intro\n\n```py -nr\nkeep()\n```\n\n```python\nprint(2)\n```\n\nend\n";
    let first = Prepared::prepare(doc);
    let outs = outputs_for(&first, vec![(1, "2".to_string())]);
    let once = first.render(&outs);
    let second = Prepared::prepare(&once);
    let outs2 = outputs_for(&second, vec![(1, "3".to_string())]);
    let twice = second.render(&outs2);
    assert!(twice.contains("**Output**\n```\n3\n```"));
    assert!(!twice.contains("**Output**\n```\n2\n```"));
    let cleared = clear_outputs(&twice);
    let before: Vec<(String, String)> = find_all_code_blocks(doc)
        .iter()
        .map(|b| (b.fence_info_text(), b.code_text()))
        .collect();
    let after: Vec<(String, String)> = find_all_code_blocks(&cleared)
        .iter()
        .map(|b| (b.fence_info_text(), b.code_text()))
        .collect();
    assert_eq!(before, after);
}

#[test]
fn skip_block_gets_no_output() {
    let doc = "```sh -nr\nrm -rf /\n```";
    let prepared = Prepared::prepare(doc);
    assert_eq!(prepared.runnable_count(), 0);
    assert!(prepared.jobs().is_empty());
    let outs = outputs_for(&prepared, vec![(0, "ignored".to_string())]);
    let result = prepared.render(&outs);
    assert_eq!(result, doc);
    assert!(!result.contains("**Output**"));
}

#[test]
fn parallel_outputs_keep_document_order() {
    let doc = "```python\nprint('block 1')\n```\n\n```python\nprint('block 2')\n```\n\n```python\nprint('block 3')\n```";
    let prepared = Prepared::prepare(doc);
    assert_eq!(prepared.runnable_count(), 3);
    assert!(use_parallel(prepared.runnable_count(), true));
    let jobs = prepared.jobs();
    let indices: Vec<usize> = jobs.iter().map(|j| j.index).collect();
    assert_eq!(indices, vec![0, 1, 2]);
    let results = vec![
        (2, "block 3".to_string()),
        (0, "block 1".to_string()),
        (1, "block 2".to_string()),
    ];
    let outs = outputs_for(&prepared, results);
    let result = prepared.render(&outs);
    assert_eq!(
        result,
        "```python\nprint('block 1')\n```\n**Output**\n```\nblock 1\n```\n\n```python\nprint('block 2')\n```\n**Output**\n```\nblock 2\n```\n\n```python\nprint('block 3')\n```\n**Output**\n```\nblock 3\n```"
    );
    assert_eq!(result.matches("**Output**").count(), 3);
    let p1 = result.find("block 1\n```").unwrap();
    let p2 = result.find("block 2\n```").unwrap();
    let p3 = result.find("block 3\n```").unwrap();
    assert!(p1 < p2 && p2 < p3);
}

#[test]
fn unsupported_language_does_not_stop_later_blocks() {
    let langs = Languages::new(Config::default().languages);
    let doc = "```cobol\nDISPLAY 'X'.\n```\n\n```bash\necho ok\n```";
    let prepared = Prepared::prepare(doc);
    let jobs = prepared.jobs();
    assert_eq!(jobs.len(), 2);
    let mut results = Vec::new();
    let first = plan_command(&langs, &jobs[0].language, "/tmp/x");
    match first {
        Err(m) => results.push((jobs[0].index, m)),
        Ok(_) => panic!("cobol has no mapping"),
    }
    let second = plan_command(&langs, &jobs[1].language, "/tmp/y.bash");
    assert_eq!(second, Ok(vec!["bash".to_string(), "/tmp/y.bash".to_string()]));
    results.push((jobs[1].index, "ok".to_string()));
    let outs = outputs_for(&prepared, results);
    let result = prepared.render(&outs);
    assert!(result.contains("[error] Language 'cobol' not supported."));
    assert!(result.contains("**Output**\n```\nok\n```"));
}

#[test]
fn arrange_outputs_places_by_index() {
    let outs = arrange_outputs(3, vec![(2, "c".to_string()), (0, "a".to_string()), (7, "x".to_string())]);
    assert_eq!(outs, vec![Some("a".to_string()), None, Some("c".to_string())]);
}

#[test]
fn strategy_threshold() {
    assert!(!use_parallel(0, true));
    assert!(!use_parallel(1, true));
    assert!(use_parallel(2, true));
    assert!(!use_parallel(2, false));
    assert!(!use_parallel(3, false));
    assert!(use_parallel(4, false));
}

#[test]
fn timeout_depends_on_code_length() {
    assert_eq!(timeout_secs(&vec!['a'; 1000]), 5);
    assert_eq!(timeout_secs(&vec!['a'; 1001]), 10);
    assert_eq!(timeout_secs(&Vec::new()), 5);
}

#[test]
fn split_handles_quotes_and_escapes() {
    assert_eq!(
        split("a \"b c\"  d\\ e").unwrap(),
        vec!["a".to_string(), "b c".to_string(), "d e".to_string()]
    );
    assert_eq!(split("   ").unwrap(), Vec::<String>::new());
    assert_eq!(split("x\\\"y").unwrap(), vec!["x\"y".to_string()]);
}

#[test]
fn get_command_substitutes_file() {
    let langs = Languages::new(Config::default().languages);
    assert_eq!(
        langs.get_command("python", "/tmp/a.python"),
        Some(vec!["python3".to_string(), "/tmp/a.python".to_string()])
    );
    assert_eq!(
        langs.get_command("rust", "/tmp/a.rust"),
        Some(
            vec!["sh", "-c", "'rustc", "/tmp/a.rust", "-o", "/tmp/runmd_rust", "&&", "/tmp/runmd_rust'"]
                .into_iter()
                .map(String::from)
                .collect()
        )
    );
    assert_eq!(langs.get_command("cobol", "/tmp/a"), None);
}

#[test]
fn first_mapping_wins_and_empty_template_is_invalid() {
    let langs = Languages::new(vec![
        ("x".to_string(), "   ".to_string()),
        ("x".to_string(), "run {file}".to_string()),
    ]);
    assert_eq!(plan_command(&langs, "x", "f"), Err("[error] Invalid command configuration.".to_string()));
    assert!(!Languages::assumed_present(&vec![]));
    assert!(Languages::assumed_present(&vec!["sh".to_string()]));
    assert!(Languages::assumed_present(&vec!["bash".to_string(), "x".to_string()]));
    assert!(!Languages::assumed_present(&vec!["zsh".to_string()]));
}

#[test]
fn default_config_has_common_interpreters() {
    let cfg = Config::default();
    assert_eq!(cfg.languages.len(), 17);
    assert!(cfg.languages.contains(&("python".to_string(), "python3 {file}".to_string())));
    assert!(cfg.languages.contains(&("r".to_string(), "Rscript {file}".to_string())));
}

#[test]
fn temp_suffix_only_for_alphanumeric_tokens() {
    assert_eq!(temp_suffix("python"), ".python");
    assert_eq!(temp_suffix("objective-c"), "");
    assert_eq!(temp_suffix("my_lang"), "");
}

#[test]
fn racket_pragma_is_added_once() {
    assert_eq!(racket_source("racket", "(display 1)"), Some("#lang racket\n(display 1)".to_string()));
    assert_eq!(racket_source("RACKET", "(display 1)"), Some("#lang racket\n(display 1)".to_string()));
    assert_eq!(racket_source("racket", "  #lang racket/base\n1"), None);
    assert_eq!(racket_source("python", "print(1)"), None);
}

#[test]
fn output_selection() {
    assert_eq!(select_output(true, "  out\n", "err"), "out");
    assert_eq!(select_output(false, "partial\n", "boom"), "partial");
    assert_eq!(select_output(false, "", "  Traceback: Exception\n"), "Traceback: Exception");
    assert_eq!(select_output(true, "", "warn"), "");
}

#[test]
fn error_messages() {
    assert_eq!(unsupported_message("cobol"), "[error] Language 'cobol' not supported.");
    assert_eq!(invalid_command_message(), "[error] Invalid command configuration.");
    assert_eq!(
        missing_interpreter_message("julia"),
        "[error] Required interpreter/compiler for 'julia' is not installed."
    );
    assert_eq!(spawn_error_message("No such file"), "[error] No such file");
    assert_eq!(timed_out_message(), "[error] execution timed out");
}

#[test]
fn text_after_block_survives_round_trip() {
    let doc = "```sh\nls\n```\nafter\n";
    let prepared = Prepared::prepare(doc);
    let outs = outputs_for(&prepared, vec![(0, "a.txt\n".to_string())]);
    let processed = prepared.render(&outs);
    assert_eq!(processed, "```sh\nls\n```\n**Output**\n```\na.txt\n```\nafter\n");
    assert_eq!(clear_outputs(&processed), doc);
}

#[test]
fn output_with_fence_line_is_not_fully_cleared() {
    let doc = "```sh\ncat f\n```";
    let prepared = Prepared::prepare(doc);
    let outs = outputs_for(&prepared, vec![(0, "a\n```\nb".to_string())]);
    let processed = prepared.render(&outs);
    assert_ne!(clear_outputs(&processed), doc);
}

#[test]
fn skip_block_keeps_trailing_empty_line() {
    let doc = "```sh -nr\nx\n\n```";
    let prepared = Prepared::prepare(doc);
    let outs = outputs_for(&prepared, vec![]);
    assert_eq!(prepared.render(&outs), doc);
}

#[test]
fn run_block_keeps_trailing_empty_line_through_clear() {
    let doc = "```sh\nx\n\n```\ntext";
    let prepared = Prepared::prepare(doc);
    let outs = outputs_for(&prepared, vec![(0, "out".to_string())]);
    let processed = prepared.render(&outs);
    assert_eq!(processed, "```sh\nx\n\n```\n**Output**\n```\nout\n```\ntext");
    assert_eq!(clear_outputs(&processed), doc);
}

#[test]
fn clear_outputs_removes_colon_marker() {
    assert_eq!(
        clear_outputs("```sh\necho y\n```\n**Output:**\n```\ny\n```"),
        "```sh\necho y\n```"
    );
}

#[test]
fn non_ascii_language_token_is_not_an_opener() {
    assert!(find_all_code_blocks("```é\nx\n```").is_empty());
    assert_eq!(find_all_code_blocks("```objective-c_2\nx\n```").len(), 1);
}

#[test]
fn duplicate_language_keeps_first_entry() {
    let langs = Languages::new(vec![
        ("py".to_string(), "python3 {file}".to_string()),
        ("py".to_string(), "pypy {file}".to_string()),
    ]);
    assert_eq!(
        langs.get_command("py", "f.py"),
        Some(vec!["python3".to_string(), "f.py".to_string()])
    );
}
