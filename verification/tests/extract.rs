use cbfmt::format::extract_codeblocks;

fn lines(doc: &str) -> Vec<String> {
    doc.lines().map(|l| l.to_string()).collect()
}

#[test]
fn markdown_block_rows_and_content() {
    let buf = lines("# Title\n\n```python\nx = 1\ny = 2\n```\n");
    let blocks = extract_codeblocks("markdown", &buf).expect("extract");
    assert_eq!(blocks.len(), 1);
    assert_eq!(blocks[0].language, "python");
    assert_eq!(blocks[0].content, "x = 1\ny = 2\n");
    assert_eq!(blocks[0].start, 3);
    assert_eq!(blocks[0].end, 5);
    assert_eq!(blocks[0].codeblock_start, 2);
}

#[test]
fn trailing_fence_is_trimmed() {
    // The buffer ends exactly at the closing fence, with no newline after
    // it: the three closing-fence characters are not part of the content.
    let buf = lines("```python\nx = 1\n```");
    let blocks = extract_codeblocks("markdown", &buf).expect("extract");
    assert_eq!(blocks.len(), 1);
    assert_eq!(blocks[0].content, "x = 1\n");
}

#[test]
fn markdown_two_blocks_in_document_order() {
    let buf = lines("```python\na\n```\ntext\n```ruby\nb\n```\n");
    let blocks = extract_codeblocks("markdown", &buf).expect("extract");
    assert_eq!(blocks.len(), 2);
    assert_eq!(blocks[0].language, "python");
    assert_eq!(blocks[1].language, "ruby");
    assert!(blocks[0].end <= blocks[1].codeblock_start);
}

#[test]
fn markdown_block_without_language_is_not_matched() {
    let buf = lines("```\nplain\n```\n");
    let blocks = extract_codeblocks("markdown", &buf).expect("extract");
    assert_eq!(blocks.len(), 0);
}

#[test]
fn org_src_block() {
    let buf = lines("* heading\n#+begin_src python\nx = 1\n#+end_src\n");
    let blocks = extract_codeblocks("org", &buf).expect("extract");
    assert_eq!(blocks.len(), 1);
    assert_eq!(blocks[0].language, "python");
    assert!(blocks[0].content.contains("x = 1"));
}

#[test]
fn rst_code_directive() {
    let buf = lines(".. code:: python\n\n   x = 1\n");
    let blocks = extract_codeblocks("restructuredtext", &buf).expect("extract");
    assert_eq!(blocks.len(), 1);
    assert_eq!(blocks[0].language, "python");
    assert!(blocks[0].content.contains("x = 1"));
}

#[test]
fn unsupported_dialect_is_refused() {
    let buf = lines("whatever\n");
    match extract_codeblocks("latex", &buf) {
        Ok(_) => panic!("latex must be refused"),
        Err(e) => assert_eq!(e.msg, "No parser found for latex."),
    }
}

#[test]
fn empty_document_has_no_blocks() {
    let buf: Vec<String> = Vec::new();
    let blocks = extract_codeblocks("markdown", &buf).expect("extract");
    assert_eq!(blocks.len(), 0);
}
