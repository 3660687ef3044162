use cbfmt::config::Conf;
use cbfmt::format::{
    collect_ordered, finish, plan_jobs, splice, FormatOutcome, FormatResult, Job,
};
use cbfmt::tree::get_parser_lang_from_filename;

fn conf_python(stage: &str) -> Conf {
    Conf { languages: vec![("python".to_string(), vec![stage.to_string()])] }
}

fn lines(doc: &str) -> Vec<String> {
    doc.lines().map(|l| l.to_string()).collect()
}

fn extract(parser: &str, buf: &Vec<String>) -> Vec<cbfmt::format::Codeblock> {
    match cbfmt::format::extract_codeblocks(parser, buf) {
        Ok(b) => b,
        Err(e) => panic!("extract failed: {}", e.to_message()),
    }
}

fn reverse_lines(s: &str) -> String {
    let mut ls: Vec<&str> = s.lines().collect();
    ls.reverse();
    let mut out = String::new();
    for l in ls {
        out.push_str(l);
        out.push('\n');
    }
    out
}

fn sort_lines(s: &str) -> String {
    let mut ls: Vec<&str> = s.lines().collect();
    ls.sort();
    let mut out = String::new();
    for l in ls {
        out.push_str(l);
        out.push('\n');
    }
    out
}

fn run_with(
    doc: &str,
    conf: &Conf,
    fail_fast: bool,
    best_effort: bool,
    formatter: impl Fn(&str) -> String,
) -> (String, bool) {
    let buf = lines(doc);
    let jobs = match cbfmt::format::plan_document("markdown", &buf, conf) {
        Ok(j) => j,
        Err(e) => panic!("planning failed: {}", e.to_message()),
    };
    let mut outcomes: Vec<FormatOutcome> = Vec::new();
    for job in jobs {
        let output = formatter(&job.block.content);
        outcomes.push(FormatOutcome { job, output: Ok(output) });
    }
    assert!(cbfmt::format::check_outcome_blocks(&outcomes, buf.len()));
    match splice(buf, outcomes, fail_fast, best_effort) {
        Ok((out, changed)) => match finish(&out, changed) {
            FormatResult::Changed(s) => (s, true),
            FormatResult::Unchanged(s) => (s, false),
            FormatResult::Failed(e) => panic!("unexpected failure: {}", e.to_message()),
        },
        Err(e) => panic!("splice failed: {}", e.to_message()),
    }
}

#[test]
fn two_blocks_python_reversed() {
    // One configured block is rewritten; the unconfigured block and all
    // prose stay byte-identical, and the run reports a change.
    let doc = "# Title\n\n```python\nx = 1\ny = 2\n```\n\n```unknownlang\nkeep me\n```\n";
    let conf = conf_python("rev");
    let (out, changed) = run_with(doc, &conf, false, false, |s| reverse_lines(s));
    assert!(changed);
    assert_eq!(
        out,
        "# Title\n\n```python\ny = 2\nx = 1\n```\n\n```unknownlang\nkeep me\n```\n"
    );
}

#[test]
fn offsets_grow_equal_shrink() {
    // Three blocks whose outputs have more, equally many, and fewer lines
    // land at the right, uncorrupted places.
    let doc = "a\n```python\none\n```\nb\n```python\ntwo\n```\nc\n```python\nthree\nfour\n```\nd\n";
    let conf = conf_python("demo");
    let buf = lines(doc);
    let blocks = extract("markdown", &buf);
    let jobs = plan_jobs(&blocks, &conf);
    assert_eq!(jobs.len(), 3);
    let outputs = ["one\nmore\nlines\n", "TWO\n", "five\n"];
    let mut outcomes: Vec<FormatOutcome> = Vec::new();
    for (job, output) in jobs.into_iter().zip(outputs.iter()) {
        outcomes.push(FormatOutcome { job, output: Ok(output.to_string()) });
    }
    let (out, changed) = match splice(buf, outcomes, false, false) {
        Ok((o, c)) => (o.join("\n") + "\n", c),
        Err(e) => panic!("splice failed: {}", e.to_message()),
    };
    assert!(changed);
    assert_eq!(
        out,
        "a\n```python\none\nmore\nlines\n```\nb\n```python\nTWO\n```\nc\n```python\nfive\n```\nd\n"
    );
}

#[test]
fn indentation_preserved_and_insensitive() {
    // The parser leaves the indentation of a nested block's first content
    // line out of its span; the fingerprint comparison must still report
    // the block unchanged when the formatter returns the same content.
    let doc = "- item\n\n  ```python\n  x = 1\n```\n";
    let conf = conf_python("identity");
    let (out, changed) = run_with(doc, &conf, false, false, |s| s.to_string());
    assert!(!changed);
    assert_eq!(out, doc);
}

#[test]
fn indentation_applied_to_new_content() {
    let doc = "1. item\n\n    ```python\n    x = 1\n    ```\n";
    let conf = conf_python("demo");
    let (out, changed) = run_with(doc, &conf, false, false, |_| "z = 9\n".to_string());
    assert!(changed);
    assert_eq!(out, "1. item\n\n    ```python\n    z = 9\n    ```\n");
}

#[test]
fn unconfigured_language_skipped() {
    // A block of an unconfigured language yields no job and the document
    // comes back unchanged.
    let doc = "```ruby\nputs 1\n```\n";
    let conf = conf_python("demo");
    let buf = lines(doc);
    let blocks = extract("markdown", &buf);
    assert_eq!(blocks.len(), 1);
    let jobs = plan_jobs(&blocks, &conf);
    assert_eq!(jobs.len(), 0);
    let (out, changed) = match splice(buf, Vec::new(), false, false) {
        Ok((o, c)) => (o.join("\n") + "\n", c),
        Err(e) => panic!("splice failed: {}", e.to_message()),
    };
    assert!(!changed);
    assert_eq!(out, doc);
}

#[test]
fn mixed_unconfigured_and_matching_blocks() {
    // An unconfigured block next to a configured block whose output
    // matches: the whole document is unchanged and byte-identical.
    let doc = "```python\nx = 1\n```\ntext\n```ruby\nkeep\n```\n";
    let conf = conf_python("identity");
    let (out, changed) = run_with(doc, &conf, false, false, |s| s.to_string());
    assert!(!changed);
    assert_eq!(out, doc);
}

#[test]
fn idempotent_rerun_unchanged() {
    // A first run with a sorting formatter changes the document; a second
    // run over its own output is reported unchanged.
    let doc = "```python\nbeta\nalpha\n```\n";
    let conf = conf_python("sort");
    let (once, changed_once) = run_with(doc, &conf, false, false, |s| sort_lines(s));
    assert!(changed_once);
    assert_eq!(once, "```python\nalpha\nbeta\n```\n");
    let (twice, changed_twice) = run_with(&once, &conf, false, false, |s| sort_lines(s));
    assert!(!changed_twice);
    assert_eq!(twice, once);
}

#[test]
fn completion_order_irrelevant() {
    // Results drained through the index-addressed slots come out in
    // submission order whatever order they arrived in.
    let in_order: Vec<(usize, String)> =
        vec![(0, "a".to_string()), (1, "b".to_string()), (2, "c".to_string())];
    let scrambled: Vec<(usize, String)> =
        vec![(2, "c".to_string()), (0, "a".to_string()), (1, "b".to_string())];
    let a = collect_ordered(3, in_order).expect("valid results");
    let b = collect_ordered(3, scrambled).expect("valid results");
    assert_eq!(a, b);
    assert_eq!(a, vec!["a".to_string(), "b".to_string(), "c".to_string()]);
}

#[test]
fn collect_ordered_rejects_gaps_and_duplicates() {
    let missing: Vec<(usize, u8)> = vec![(0, 1), (0, 2), (2, 3)];
    assert!(collect_ordered(3, missing).is_none());
    let short: Vec<(usize, u8)> = vec![(0, 1)];
    assert!(collect_ordered(2, short).is_none());
    let out_of_range: Vec<(usize, u8)> = vec![(0, 1), (5, 2)];
    assert!(collect_ordered(2, out_of_range).is_none());
}

#[test]
fn strict_mode_aborts_on_failed_outcome() {
    let doc = "```python\nx = 1\n```\n";
    let conf = conf_python("boom");
    let buf = lines(doc);
    let blocks = extract("markdown", &buf);
    let jobs = plan_jobs(&blocks, &conf);
    let mut outcomes: Vec<FormatOutcome> = Vec::new();
    for job in jobs {
        let language = job.block.language.clone();
        let command = "boom".to_string();
        let err = cbfmt::format::stage_error(
            "exploded".to_string(),
            &command,
            &language,
            job.block.start,
        );
        outcomes.push(FormatOutcome { job, output: Err(err) });
    }
    match splice(buf, outcomes, false, false) {
        Ok(_) => panic!("strict mode must abort"),
        Err(e) => {
            assert_eq!(e.msg, "exploded");
            assert_eq!(e.command.as_deref(), Some("boom"));
            assert_eq!(e.language.as_deref(), Some("python"));
            assert_eq!(e.start.as_deref(), Some(":1"));
        }
    }
}

#[test]
fn best_effort_keeps_failed_block() {
    let doc = "```python\nx = 1\n```\n";
    let conf = conf_python("boom");
    let buf = lines(doc);
    let blocks = extract("markdown", &buf);
    let jobs = plan_jobs(&blocks, &conf);
    let mut outcomes: Vec<FormatOutcome> = Vec::new();
    for job in jobs {
        let language = job.block.language.clone();
        let command = "boom".to_string();
        let err =
            cbfmt::format::stage_error("exploded".to_string(), &command, &language, job.block.start);
        outcomes.push(FormatOutcome { job, output: Err(err) });
    }
    let (out, changed) = match splice(buf, outcomes, false, true) {
        Ok((o, c)) => (o.join("\n") + "\n", c),
        Err(e) => panic!("best effort must absorb: {}", e.to_message()),
    };
    assert!(!changed);
    assert_eq!(out, doc);
}

#[test]
fn fail_fast_stops_at_first_difference() {
    let doc = "```python\na\n```\n```python\nb\n```\n";
    let conf = conf_python("demo");
    let buf = lines(doc);
    let blocks = extract("markdown", &buf);
    let jobs = plan_jobs(&blocks, &conf);
    assert_eq!(jobs.len(), 2);
    let mut outcomes: Vec<FormatOutcome> = Vec::new();
    for job in jobs {
        outcomes.push(FormatOutcome { job, output: Ok("changed\n".to_string()) });
    }
    let (out, changed) = match splice(buf, outcomes, true, false) {
        Ok((o, c)) => (o.join("\n") + "\n", c),
        Err(e) => panic!("splice failed: {}", e.to_message()),
    };
    assert!(changed);
    // fail-fast stops before splicing the differing block
    assert_eq!(out, doc);
}

#[test]
fn tally_counts_and_exit_rule() {
    let mut t = cbfmt::format::Tally::new();
    t.record(&FormatResult::Unchanged("a.md".to_string()));
    t.record(&FormatResult::Changed("b.md".to_string()));
    t.record(&FormatResult::Failed(cbfmt::format::FormatError {
        msg: "x".to_string(),
        filename: None,
        command: None,
        language: None,
        start: None,
    }));
    assert_eq!(t.unchanged, 1);
    assert_eq!(t.changed, 1);
    assert_eq!(t.errors, 1);
    assert_eq!(t.total(), 3);
    assert!(t.should_fail(false));
    assert!(t.should_fail(true));
    let mut only_changed = cbfmt::format::Tally::new();
    only_changed.record(&FormatResult::Changed("b.md".to_string()));
    assert!(only_changed.should_fail(false));
    assert!(!only_changed.should_fail(true));
    let clean = cbfmt::format::Tally::new();
    assert!(!clean.should_fail(false));
}

#[test]
fn filename_owner_is_job_block() {
    // jobs carry the block they were planned from
    let doc = "```python\nx = 1\n```\n";
    let conf = conf_python("demo");
    let buf = lines(doc);
    let blocks = extract("markdown", &buf);
    let jobs: Vec<Job> = plan_jobs(&blocks, &conf);
    assert_eq!(jobs.len(), 1);
    assert_eq!(jobs[0].block.language, "python");
    assert_eq!(jobs[0].block.content, "x = 1\n");
    assert_eq!(jobs[0].chain, vec!["demo".to_string()]);
    assert_eq!(jobs[0].input_hash, cbfmt::utils::get_hash("x = 1\n"));
    assert!(get_parser_lang_from_filename("README.md").is_some());
}
