//! The extraction, dispatch and reassembly engine: a document is parsed into
//! an ordered list of codeblocks, each codeblock with a configured formatter
//! chain becomes a job, and the formatted results are spliced back into the
//! document with indentation and line-offset tracking and a changed verdict.

use vstd::prelude::*;
use crate::config::{Conf, lookup_spec};
use crate::tree::{
    RawCaptureV, RawMatch, RawMatchV, dialect_matches_of, dialect_supported, get_query, get_tree,
    matches_view, ts_collect_matches,
};
use crate::utils::{
    fingerprint_of, is_ws_char, get_hash, get_start_whitespace, join_with_newlines, joined_src, leading_ws,
    split_lines, split_lines_spec, str_eq, string_from_chars, str_chars, subvec_chars,
    trimmed_start, usize_to_string, dec_str,
};

verus! {

/// A structured error record: what failed, and, where known, the file, the
/// external command, the language and the position it failed at.
#[derive(Debug)]
pub struct FormatError {
    pub msg: String,
    pub filename: Option<String>,
    pub command: Option<String>,
    pub language: Option<String>,
    pub start: Option<String>,
}

/// The characters of an optional field, or nothing.
pub open spec fn opt_chars(o: Option<String>) -> Seq<char> {
    match o {
        Some(s) => s@,
        None => Seq::empty(),
    }
}

/// The rendered form of an error record: file and position first, then the
/// language and command in brackets, then the message on its own line.
pub open spec fn error_message_spec(e: FormatError) -> Seq<char> {
    opt_chars(e.filename) + opt_chars(e.start) + (match e.language {
        Some(l) => " ["@ + l@ + "] ->"@,
        None => Seq::empty(),
    }) + (match e.command {
        Some(c) => " ["@ + c@ + "] "@,
        None => Seq::empty(),
    }) + "\n"@ + e.msg@
}

impl FormatError {
    /// Renders the error for display.
    pub fn to_message(&self) -> (r: String)
        ensures
            r@ == error_message_spec(*self),
    {
        let mut out = String::new();
        match &self.filename {
            Some(f) => { out.append(f.as_str()) },
            None => {},
        }
        match &self.start {
            Some(s) => { out.append(s.as_str()) },
            None => {},
        }
        match &self.language {
            Some(l) => {
                out.append(" [");
                out.append(l.as_str());
                out.append("] ->");
            },
            None => {},
        }
        match &self.command {
            Some(c) => {
                out.append(" [");
                out.append(c.as_str());
                out.append("] ");
            },
            None => {},
        }
        out.append("\n");
        out.append(self.msg.as_str());
        proof {
            assert(out@ =~= error_message_spec(*self));
        }
        out
    }
}

/// The verdict of one document run: the document unchanged, the document
/// changed, or a failure.
pub enum FormatResult {
    Unchanged(String),
    Changed(String),
    Failed(FormatError),
}

/// A codeblock found in a document: its language, its content, the row span
/// `[start, end)` the content covers, and the row the codeblock itself
/// starts on. Rows refer to the pre-edit numbering of the document.
pub struct Codeblock {
    pub language: String,
    pub content: String,
    pub start: usize,
    pub end: usize,
    pub codeblock_start: usize,
}

/// The mathematical shape of a codeblock.
pub ghost struct CodeblockV {
    pub language: Seq<char>,
    pub content: Seq<char>,
    pub start: int,
    pub end: int,
    pub codeblock_start: int,
}

impl View for Codeblock {
    type V = CodeblockV;

    open spec fn view(&self) -> CodeblockV {
        CodeblockV {
            language: self.language@,
            content: self.content@,
            start: self.start as int,
            end: self.end as int,
            codeblock_start: self.codeblock_start as int,
        }
    }
}

/// The codeblock with no captures applied yet.
pub open spec fn empty_block() -> CodeblockV {
    CodeblockV {
        language: Seq::empty(),
        content: Seq::empty(),
        start: 0,
        end: 0,
        codeblock_start: 0,
    }
}

/// Content of a fenced block with the closing fence trimmed: when a block is
/// the last thing in the buffer the markdown grammar includes the three
/// closing-fence characters in the content, and they are dropped.
pub open spec fn md_trim(content: Seq<char>) -> Seq<char> {
    if content.len() >= 3 && content[content.len() - 3] == '`' && content[content.len() - 2] == '`'
        && content[content.len() - 1] == '`' {
        content.take(content.len() - 3)
    } else {
        content
    }
}

/// Folds one named capture into the codeblock under construction.
pub open spec fn apply_capture(acc: CodeblockV, c: RawCaptureV, is_md: bool) -> CodeblockV {
    if c.name == "language"@ {
        CodeblockV { language: c.text, ..acc }
    } else if c.name == "content"@ {
        CodeblockV {
            content: if is_md {
                md_trim(c.text)
            } else {
                c.text
            },
            start: c.start_row,
            end: c.end_row,
            ..acc
        }
    } else if c.name == "codeblock"@ {
        CodeblockV { codeblock_start: c.start_row, ..acc }
    } else {
        acc
    }
}

/// Folds a match's captures, in order, into a codeblock.
pub open spec fn interp_captures(caps: Seq<RawCaptureV>, acc: CodeblockV, is_md: bool) -> CodeblockV
    decreases caps.len(),
{
    if caps.len() == 0 {
        acc
    } else {
        interp_captures(caps.skip(1), apply_capture(acc, caps[0], is_md), is_md)
    }
}

/// The codeblock a query match describes.
pub open spec fn interp_match(m: RawMatchV, is_md: bool) -> CodeblockV {
    interp_captures(m.captures, empty_block(), is_md)
}

/// The codeblocks of a match list, in order.
pub open spec fn interp_matches(ms: Seq<RawMatchV>, is_md: bool) -> Seq<CodeblockV> {
    ms.map_values(|m: RawMatchV| interp_match(m, is_md))
}

/// Drops a trailing closing fence from captured content (see [`md_trim`]).
fn trim_fence(text: &String) -> (r: String)
    ensures
        r@ == md_trim(text@),
{
    let chars = str_chars(text.as_str());
    let n = chars.len();
    if n >= 3 && chars[n - 3] == '`' && chars[n - 2] == '`' && chars[n - 1] == '`' {
        let kept = subvec_chars(&chars, 0, n - 3);
        proof {
            assert(kept@ =~= md_trim(text@));
        }
        string_from_chars(&kept)
    } else {
        text.clone()
    }
}

/// Builds the ordered codeblock list a match list describes: each match's
/// captures are folded in order; for the fenced-block dialect a trailing
/// closing fence is trimmed from captured content.
pub fn interpret_matches(matches: &Vec<RawMatch>, is_markdown: bool) -> (r: Vec<Codeblock>)
    ensures
        r@.len() == matches@.len(),
        forall|i: int|
            0 <= i < r@.len() ==> #[trigger] r@[i]@ == interp_matches(
                matches_view(matches@),
                is_markdown,
            )[i],
{
    let mut r: Vec<Codeblock> = Vec::new();
    let mut i: usize = 0;
    while i < matches.len()
        invariant
            0 <= i <= matches@.len(),
            r@.len() == i,
            forall|k: int|
                0 <= k < i ==> #[trigger] r@[k]@ == interp_matches(
                    matches_view(matches@),
                    is_markdown,
                )[k],
        decreases matches@.len() - i,
    {
        let m = &matches[i];
        let ghost capsv = m@.captures;
        let mut language = String::new();
        let mut content = String::new();
        let mut start: usize = 0;
        let mut end: usize = 0;
        let mut codeblock_start: usize = 0;
        let mut j: usize = 0;
        proof {
            assert(capsv.skip(0) =~= capsv);
            assert(capsv.len() == m.captures@.len());
        }
        while j < m.captures.len()
            invariant
                0 <= j <= m.captures@.len(),
                capsv == m@.captures,
                capsv.len() == m.captures@.len(),
                interp_captures(capsv, empty_block(), is_markdown) == interp_captures(
                    capsv.skip(j as int),
                    CodeblockV {
                        language: language@,
                        content: content@,
                        start: start as int,
                        end: end as int,
                        codeblock_start: codeblock_start as int,
                    },
                    is_markdown,
                ),
            decreases m.captures@.len() - j,
        {
            let ghost acc = CodeblockV {
                language: language@,
                content: content@,
                start: start as int,
                end: end as int,
                codeblock_start: codeblock_start as int,
            };
            let c = &m.captures[j];
            proof {
                assert(capsv[j as int] == m.captures@[j as int]@);
                assert(capsv.skip(j as int)[0] == capsv[j as int]);
                assert(capsv.skip(j as int).skip(1) =~= capsv.skip(j as int + 1));
            }
            if str_eq(c.name.as_str(), "language") {
                language = c.text.clone();
            } else if str_eq(c.name.as_str(), "content") {
                start = c.start_row;
                end = c.end_row;
                if is_markdown {
                    content = trim_fence(&c.text);
                } else {
                    content = c.text.clone();
                }
            } else if str_eq(c.name.as_str(), "codeblock") {
                codeblock_start = c.start_row;
            }
            proof {
                assert(CodeblockV {
                    language: language@,
                    content: content@,
                    start: start as int,
                    end: end as int,
                    codeblock_start: codeblock_start as int,
                } == apply_capture(acc, capsv[j as int], is_markdown));
            }
            j += 1;
        }
        proof {
            assert(capsv.skip(capsv.len() as int) =~= Seq::<RawCaptureV>::empty());
        }
        let block = Codeblock { language, content, start, end, codeblock_start };
        proof {
            assert(matches_view(matches@)[i as int] == matches@[i as int]@);
            assert(block@ == interp_match(matches_view(matches@)[i as int], is_markdown));
        }
        r.push(block);
        i += 1;
    }
    r
}

/// A single codeblock's spans lie inside a document of `n` lines, in order.
pub open spec fn block_wf(b: CodeblockV, n: int) -> bool {
    &&& 0 <= b.codeblock_start
    &&& b.codeblock_start <= b.start
    &&& b.start <= b.end
    &&& b.end <= n
    &&& b.codeblock_start < n
}

/// The discovered codeblocks are non-overlapping and stand in strictly
/// increasing row order inside a document of `n` lines.
pub open spec fn codeblocks_wf(bs: Seq<CodeblockV>, n: int) -> bool {
    (forall|i: int| 0 <= i < bs.len() ==> block_wf(#[trigger] bs[i], n)) && (forall|i: int|
        0 < i < bs.len() ==> (#[trigger] bs[i]).codeblock_start >= bs[i - 1].end)
}

/// The views of a codeblock list.
pub open spec fn blocks_view(bs: Seq<Codeblock>) -> Seq<CodeblockV> {
    bs.map_values(|b: Codeblock| b@)
}

/// Checks the codeblock invariant at run time.
pub fn check_codeblocks(blocks: &Vec<Codeblock>, line_count: usize) -> (b: bool)
    ensures
        b == codeblocks_wf(blocks_view(blocks@), line_count as int),
{
    let mut i: usize = 0;
    while i < blocks.len()
        invariant
            0 <= i <= blocks@.len(),
            forall|k: int|
                0 <= k < i ==> block_wf(#[trigger] blocks_view(blocks@)[k], line_count as int),
            forall|k: int|
                0 < k < i ==> (#[trigger] blocks_view(blocks@)[k]).codeblock_start >= blocks_view(
                    blocks@,
                )[k - 1].end,
        decreases blocks@.len() - i,
    {
        let b = &blocks[i];
        if !(b.codeblock_start <= b.start && b.start <= b.end && b.end <= line_count
            && b.codeblock_start < line_count) {
            proof {
                assert(!block_wf(blocks_view(blocks@)[i as int], line_count as int));
            }
            return false;
        }
        if i > 0 {
            let p = &blocks[i - 1];
            if b.codeblock_start < p.end {
                proof {
                    assert((blocks_view(blocks@)[i as int]).codeblock_start < blocks_view(
                        blocks@,
                    )[i as int - 1].end);
                }
                return false;
            }
        }
        i += 1;
    }
    true
}

/// The codeblocks a dialect's structural query finds in a document: the
/// dialect's match list over the joined document text, folded capture by
/// capture, with the fenced-block trim for markdown.
pub open spec fn extracted_blocks(lang: Seq<char>, doc: Seq<Seq<char>>) -> Seq<CodeblockV> {
    interp_matches(dialect_matches_of(lang, joined_src(doc)), lang == "markdown"@)
}

/// Extracts the ordered codeblock list of a document: exactly the dialect's
/// [`extracted_blocks`]. Fails when the dialect has no registered query, or
/// when the discovered spans break the codeblock invariant; on success the
/// invariant holds of the result.
pub fn extract_codeblocks(parser_lang: &str, buf: &Vec<String>) -> (r: Result<
    Vec<Codeblock>,
    FormatError,
>)
    ensures
        !dialect_supported(parser_lang@) ==> r is Err && r->Err_0.msg@ == "No parser found for "@
            + parser_lang@ + "."@,
        dialect_supported(parser_lang@) ==> ((r is Ok) == codeblocks_wf(
            extracted_blocks(parser_lang@, buf.deep_view()),
            buf@.len() as int,
        )),
        dialect_supported(parser_lang@) && r is Err ==> r->Err_0.msg@
            == "Codeblock spans are out of order."@,
        r is Ok ==> blocks_view(r->Ok_0@) == extracted_blocks(parser_lang@, buf.deep_view()),
        r is Ok ==> codeblocks_wf(blocks_view(r->Ok_0@), buf@.len() as int),
{
    let src = join_with_newlines(buf);
    let s = src.as_str();
    let bytes = s.as_bytes();
    let is_md = str_eq(parser_lang, "markdown");
    let tree = match get_tree(parser_lang, bytes) {
        Some(t) => t,
        None => {
            return Err(no_parser_error(parser_lang));
        },
    };
    let query = match get_query(parser_lang) {
        Some(q) => q,
        None => {
            proof {
                assert(false);
            }
            return Err(no_parser_error(parser_lang));
        },
    };
    let matches = ts_collect_matches(&query, &tree, s);
    let ghost target = extracted_blocks(parser_lang@, buf.deep_view());
    proof {
        assert(s@ == joined_src(buf.deep_view()));
        if parser_lang@ == "markdown"@ {
            assert(matches_view(matches@) == dialect_matches_of(parser_lang@, s@));
        } else if parser_lang@ == "org"@ {
            assert(matches_view(matches@) == dialect_matches_of(parser_lang@, s@));
        } else {
            assert(parser_lang@ == "restructuredtext"@);
            assert(matches_view(matches@) == dialect_matches_of(parser_lang@, s@));
        }
        assert(target == interp_matches(matches_view(matches@), is_md));
    }
    let blocks = interpret_matches(&matches, is_md);
    proof {
        assert(blocks_view(blocks@) =~= target);
    }
    if !check_codeblocks(&blocks, buf.len()) {
        return Err(
            FormatError {
                msg: String::from_str("Codeblock spans are out of order."),
                filename: None,
                command: None,
                language: None,
                start: None,
            },
        );
    }
    Ok(blocks)
}

/// The error reported when no parser fits the requested dialect.
pub fn no_parser_error(parser_lang: &str) -> (e: FormatError)
    ensures
        e.msg@ == "No parser found for "@ + parser_lang@ + "."@,
        e.filename is None,
        e.command is None,
        e.language is None,
        e.start is None,
{
    let msg = String::from_str("No parser found for ").concat(parser_lang).concat(".");
    FormatError { msg, filename: None, command: None, language: None, start: None }
}

/// One dispatched codeblock: the block, its formatter chain, and the
/// fingerprint of its content at dispatch time.
pub struct Job {
    pub block: Codeblock,
    pub chain: Vec<String>,
    pub input_hash: u64,
}

/// The mathematical shape of a job.
pub ghost struct JobV {
    pub block: CodeblockV,
    pub chain: Seq<String>,
    pub input_hash: u64,
}

impl View for Job {
    type V = JobV;

    open spec fn view(&self) -> JobV {
        JobV { block: self.block@, chain: self.chain@, input_hash: self.input_hash }
    }
}

/// The views of a job list.
pub open spec fn jobs_view(js: Seq<Job>) -> Seq<JobV> {
    js.map_values(|j: Job| j@)
}

/// The jobs a codeblock list gives rise to under a configuration: each
/// block whose language has a configured chain, in order, paired with that
/// chain and with the fingerprint of its content; blocks of unconfigured
/// languages are skipped entirely.
pub open spec fn plan_spec(bs: Seq<CodeblockV>, langs: Seq<(String, Vec<String>)>) -> Seq<JobV>
    decreases bs.len(),
{
    if bs.len() == 0 {
        Seq::empty()
    } else {
        let rest = plan_spec(bs.skip(1), langs);
        match lookup_spec(langs, bs[0].language) {
            Some(chain) => seq![
                JobV { block: bs[0], chain: chain, input_hash: fingerprint_of(bs[0].content) },
            ] + rest,
            None => rest,
        }
    }
}

/// An element-wise copy of a codeblock.
pub fn clone_codeblock(b: &Codeblock) -> (r: Codeblock)
    ensures
        r@ == b@,
{
    Codeblock {
        language: b.language.clone(),
        content: b.content.clone(),
        start: b.start,
        end: b.end,
        codeblock_start: b.codeblock_start,
    }
}

/// Matches each codeblock with its configured formatter chain, in order,
/// computing its input fingerprint; codeblocks of unconfigured languages
/// are skipped entirely.
pub fn plan_jobs(blocks: &Vec<Codeblock>, conf: &Conf) -> (jobs: Vec<Job>)
    ensures
        jobs_view(jobs@) == plan_spec(blocks_view(blocks@), conf.languages@),
{
    let ghost bsv = blocks_view(blocks@);
    let mut jobs: Vec<Job> = Vec::new();
    let mut i: usize = 0;
    proof {
        assert(bsv.skip(0) =~= bsv);
        assert(jobs_view(jobs@) + plan_spec(bsv, conf.languages@) =~= plan_spec(
            bsv,
            conf.languages@,
        ));
    }
    while i < blocks.len()
        invariant
            0 <= i <= blocks@.len(),
            bsv == blocks_view(blocks@),
            bsv.len() == blocks@.len(),
            jobs_view(jobs@) + plan_spec(bsv.skip(i as int), conf.languages@) =~= plan_spec(
                bsv,
                conf.languages@,
            ),
        decreases blocks@.len() - i,
    {
        let ghost prev = jobs_view(jobs@);
        let b = &blocks[i];
        proof {
            assert(bsv.skip(i as int)[0] == bsv[i as int]);
            assert(bsv.skip(i as int).skip(1) =~= bsv.skip(i as int + 1));
        }
        match conf.lookup(b.language.as_str()) {
            Some(chain) => {
                let input_hash = get_hash(b.content.as_str());
                let job = Job { block: clone_codeblock(b), chain, input_hash };
                proof {
                    assert(job@ == JobV {
                        block: bsv[i as int],
                        chain: lookup_spec(conf.languages@, bsv[i as int].language).unwrap(),
                        input_hash: fingerprint_of(bsv[i as int].content),
                    });
                }
                jobs.push(job);
                proof {
                    assert(jobs_view(jobs@) =~= prev.push(job@));
                    assert(jobs_view(jobs@) + plan_spec(bsv.skip(i as int + 1), conf.languages@)
                        =~= plan_spec(bsv, conf.languages@));
                }
            },
            None => {
                proof {
                    assert(jobs_view(jobs@) + plan_spec(bsv.skip(i as int + 1), conf.languages@)
                        =~= plan_spec(bsv, conf.languages@));
                }
            },
        }
        i += 1;
    }
    proof {
        assert(bsv.skip(bsv.len() as int) =~= Seq::<CodeblockV>::empty());
        assert(jobs_view(jobs@) + plan_spec(Seq::<CodeblockV>::empty(), conf.languages@) =~=
        jobs_view(jobs@));
    }
    jobs
}

/// The blocks of a job list, in order.
pub open spec fn job_blocks(js: Seq<JobV>) -> Seq<CodeblockV> {
    js.map_values(|j: JobV| j.block)
}

/// Planning keeps the codeblock invariant: the jobs' blocks are an ordered
/// selection of the codeblocks.
pub proof fn lemma_plan_wf(bs: Seq<CodeblockV>, langs: Seq<(String, Vec<String>)>, n: int)
    requires
        codeblocks_wf(bs, n),
    ensures
        codeblocks_wf(job_blocks(plan_spec(bs, langs)), n),
        plan_spec(bs, langs).len() > 0 && bs.len() > 0 ==> plan_spec(
            bs,
            langs,
        )[0].block.codeblock_start >= bs[0].codeblock_start,
    decreases bs.len(),
{
    if bs.len() > 0 {
        let rest = bs.skip(1);
        assert(codeblocks_wf(rest, n)) by {
            assert forall|i: int| 0 <= i < rest.len() implies block_wf(#[trigger] rest[i], n) by {
                assert(rest[i] == bs[i + 1]);
            }
            assert forall|i: int|
                0 < i < rest.len() implies (#[trigger] rest[i]).codeblock_start >= rest[i
                - 1].end by {
                assert(rest[i] == bs[i + 1]);
                assert(rest[i - 1] == bs[i]);
            }
        }
        lemma_plan_wf(rest, langs, n);
        let planned = plan_spec(bs, langs);
        let planned_rest = plan_spec(rest, langs);
        match lookup_spec(langs, bs[0].language) {
            Some(chain) => {
                let job0 = JobV {
                    block: bs[0],
                    chain: chain,
                    input_hash: fingerprint_of(bs[0].content),
                };
                assert(planned == seq![job0] + planned_rest);
                let jb = job_blocks(planned);
                assert forall|i: int| 0 <= i < jb.len() implies block_wf(#[trigger] jb[i], n) by {
                    if i == 0 {
                        assert(jb[0] == bs[0]);
                        assert(block_wf(bs[0], n));
                    } else {
                        assert(jb[i] == job_blocks(planned_rest)[i - 1]);
                    }
                }
                assert forall|i: int|
                    0 < i < jb.len() implies (#[trigger] jb[i]).codeblock_start >= jb[i
                    - 1].end by {
                    if i == 1 {
                        assert(jb[1] == job_blocks(planned_rest)[0]);
                        if rest.len() > 0 {
                            assert(planned_rest[0].block.codeblock_start
                                >= rest[0].codeblock_start);
                            assert(rest[0].codeblock_start >= bs[0].end);
                        }
                        assert(jb[0] == bs[0]);
                    } else {
                        assert(jb[i] == job_blocks(planned_rest)[i - 1]);
                        assert(jb[i - 1] == job_blocks(planned_rest)[i - 2]);
                    }
                }
                assert(planned[0].block.codeblock_start >= bs[0].codeblock_start);
            },
            None => {
                assert(planned == planned_rest);
                if planned.len() > 0 && rest.len() > 0 {
                    assert(planned_rest[0].block.codeblock_start >= rest[0].codeblock_start);
                    assert(rest[0].codeblock_start >= bs[0].end);
                    assert(bs[0].end >= bs[0].codeblock_start);
                }
            },
        }
    }
}

/// Extracts a document's codeblocks and plans its jobs in one step: the
/// jobs of every configured codeblock of the dialect's [`extracted_blocks`],
/// in document order, with blocks that keep the codeblock invariant.
pub fn plan_document(parser_lang: &str, buf: &Vec<String>, conf: &Conf) -> (r: Result<
    Vec<Job>,
    FormatError,
>)
    ensures
        !dialect_supported(parser_lang@) ==> r is Err,
        dialect_supported(parser_lang@) ==> ((r is Ok) == codeblocks_wf(
            extracted_blocks(parser_lang@, buf.deep_view()),
            buf@.len() as int,
        )),
        r is Ok ==> jobs_view(r->Ok_0@) == plan_spec(
            extracted_blocks(parser_lang@, buf.deep_view()),
            conf.languages@,
        ),
        r is Ok ==> codeblocks_wf(job_blocks(jobs_view(r->Ok_0@)), buf@.len() as int),
{
    match extract_codeblocks(parser_lang, buf) {
        Err(e) => Err(e),
        Ok(blocks) => {
            let jobs = plan_jobs(&blocks, conf);
            proof {
                lemma_plan_wf(blocks_view(blocks@), conf.languages@, buf@.len() as int);
            }
            Ok(jobs)
        },
    }
}

/// One stage of a formatter chain, split into the executable and its
/// arguments.
pub struct CommandSpec {
    pub program: String,
    pub args: Vec<String>,
}

/// The mathematical shape of a stage command.
pub ghost struct CommandSpecV {
    pub program: Seq<char>,
    pub args: Seq<Seq<char>>,
}

impl View for CommandSpec {
    type V = CommandSpecV;

    open spec fn view(&self) -> CommandSpecV {
        CommandSpecV { program: self.program@, args: self.args.deep_view() }
    }
}

/// The commands a chain runs, in order: each stage is split on whitespace
/// into an executable and its arguments; stages with no tokens (empty or
/// all-whitespace specifications) are skipped.
pub open spec fn stages_spec(chain: Seq<String>) -> Seq<CommandSpecV>
    decreases chain.len(),
{
    if chain.len() == 0 {
        Seq::empty()
    } else {
        let toks = crate::utils::split_ws_spec(chain[0]@);
        let rest = stages_spec(chain.skip(1));
        if toks.len() == 0 {
            rest
        } else {
            seq![CommandSpecV { program: toks[0], args: toks.skip(1) }] + rest
        }
    }
}

/// The views of a command list.
pub open spec fn commands_view(cs: Seq<CommandSpec>) -> Seq<CommandSpecV> {
    cs.map_values(|c: CommandSpec| c@)
}

/// Splits each stage of a chain into an executable and its arguments, in
/// order, skipping stages with no tokens.
pub fn stage_commands(chain: &Vec<String>) -> (r: Vec<CommandSpec>)
    ensures
        commands_view(r@) == stages_spec(chain@),
{
    let mut r: Vec<CommandSpec> = Vec::new();
    let mut i: usize = 0;
    proof {
        assert(chain@.skip(0) =~= chain@);
        assert(commands_view(r@) + stages_spec(chain@) =~= stages_spec(chain@));
    }
    while i < chain.len()
        invariant
            0 <= i <= chain@.len(),
            commands_view(r@) + stages_spec(chain@.skip(i as int)) =~= stages_spec(chain@),
        decreases chain@.len() - i,
    {
        let ghost prev = commands_view(r@);
        proof {
            assert(chain@.skip(i as int)[0] == chain@[i as int]);
            assert(chain@.skip(i as int).skip(1) =~= chain@.skip(i as int + 1));
        }
        let mut tokens = crate::utils::split_whitespace_vec(chain[i].as_str());
        if tokens.len() > 0 {
            let ghost toks = tokens.deep_view();
            let program = tokens.remove(0);
            let cmd = CommandSpec { program, args: tokens };
            proof {
                assert(cmd.args.deep_view() =~= toks.skip(1));
                assert(cmd@ == CommandSpecV { program: toks[0], args: toks.skip(1) });
            }
            r.push(cmd);
            proof {
                assert(commands_view(r@) =~= prev.push(cmd@));
                assert(commands_view(r@) + stages_spec(chain@.skip(i as int + 1)) =~= stages_spec(
                    chain@,
                ));
            }
        }
        i += 1;
    }
    proof {
        assert(chain@.skip(chain@.len() as int) =~= Seq::<String>::empty());
        assert(commands_view(r@) + stages_spec(Seq::<String>::empty()) =~= commands_view(r@));
    }
    r
}

/// The error record for a failed stage of a codeblock's chain: it carries
/// the failing command, the block's language, and the content's start row
/// as a position marker.
pub fn stage_error(msg: String, command: &String, language: &String, start_row: usize) -> (e:
    FormatError)
    ensures
        e.msg == msg,
        e.filename is None,
        e.command is Some && e.command.unwrap()@ == command@,
        e.language is Some && e.language.unwrap()@ == language@,
        e.start is Some && e.start.unwrap()@ == ":"@ + dec_str(start_row as nat),
{
    let mut start = String::from_str(":");
    let row = usize_to_string(start_row);
    start.append(row.as_str());
    FormatError {
        msg,
        filename: None,
        command: Some(command.clone()),
        language: Some(language.clone()),
        start: Some(start),
    }
}

/// One drained outcome: the job as dispatched, and what its chain produced,
/// either the formatted content or the error of the failing stage.
pub struct FormatOutcome {
    pub job: Job,
    pub output: Result<String, FormatError>,
}

/// The mathematical shape of an outcome.
pub ghost struct OutcomeV {
    pub block: CodeblockV,
    pub input_hash: u64,
    pub output: Result<Seq<char>, FormatError>,
}

impl View for FormatOutcome {
    type V = OutcomeV;

    open spec fn view(&self) -> OutcomeV {
        OutcomeV {
            block: self.job.block@,
            input_hash: self.job.input_hash,
            output: match self.output {
                Ok(s) => Ok(s@),
                Err(e) => Err(e),
            },
        }
    }
}

/// The views of an outcome list.
pub open spec fn outs_view(os: Seq<FormatOutcome>) -> Seq<OutcomeV> {
    os.map_values(|o: FormatOutcome| o@)
}

/// The blocks of an outcome list, in order.
pub open spec fn blocks_of(os: Seq<OutcomeV>) -> Seq<CodeblockV> {
    os.map_values(|o: OutcomeV| o.block)
}

/// Lines joined with one newline after every line, including the last.
pub open spec fn nl_terminated(lines: Seq<Seq<char>>) -> Seq<char>
    decreases lines.len(),
{
    if lines.len() == 0 {
        Seq::empty()
    } else {
        lines[0] + seq!['\n'] + nl_terminated(lines.skip(1))
    }
}

pub proof fn lemma_nl_terminated_push(lines: Seq<Seq<char>>, x: Seq<char>)
    ensures
        nl_terminated(lines.push(x)) == nl_terminated(lines) + x + seq!['\n'],
    decreases lines.len(),
{
    if lines.len() == 0 {
        assert(lines.push(x) =~= seq![x]);
        assert(seq![x].skip(1) =~= Seq::<Seq<char>>::empty());
        assert(nl_terminated(seq![x]) == x + seq!['\n'] + nl_terminated(
            Seq::<Seq<char>>::empty(),
        ));
        assert(x + seq!['\n'] + nl_terminated(Seq::<Seq<char>>::empty()) =~= nl_terminated(lines)
            + x + seq!['\n']);
    } else {
        lemma_nl_terminated_push(lines.skip(1), x);
        assert(lines.push(x).skip(1) =~= lines.skip(1).push(x));
        assert(lines.push(x)[0] == lines[0]);
        assert(nl_terminated(lines.push(x)) == lines[0] + seq!['\n'] + (nl_terminated(
            lines.skip(1),
        ) + x + seq!['\n']));
        assert(lines[0] + seq!['\n'] + (nl_terminated(lines.skip(1)) + x + seq!['\n']) =~= (
        lines[0] + seq!['\n'] + nl_terminated(lines.skip(1))) + x + seq!['\n']);
    }
}

/// Each line prefixed with the indentation `ws`.
pub open spec fn indent_lines(ws: Seq<char>, lines: Seq<Seq<char>>) -> Seq<Seq<char>> {
    lines.map_values(|l: Seq<char>| ws + l)
}

/// The re-indented, newline-terminated form of a chain's output: every line
/// of `content` prefixed with `ws` and ended with a newline.
pub open spec fn fixed_output_spec(ws: Seq<char>, content: Seq<char>) -> Seq<char> {
    nl_terminated(indent_lines(ws, split_lines_spec(content)))
}

/// Builds [`fixed_output_spec`] at run time.
pub fn indent_and_terminate(ws: &String, content: &String) -> (r: String)
    ensures
        r@ == fixed_output_spec(ws@, content@),
{
    let lines = split_lines(content.as_str());
    let ghost target = indent_lines(ws@, lines.deep_view());
    let mut out = String::new();
    let mut k: usize = 0;
    proof {
        assert(target.take(0) =~= Seq::<Seq<char>>::empty());
    }
    while k < lines.len()
        invariant
            0 <= k <= lines@.len(),
            target == indent_lines(ws@, lines.deep_view()),
            target.len() == lines@.len(),
            lines.deep_view().len() == lines@.len(),
            out@ == nl_terminated(target.take(k as int)),
        decreases lines@.len() - k,
    {
        out.append(ws.as_str());
        out.append(lines[k].as_str());
        out.append("\n");
        proof {
            reveal_strlit("\n");
            assert("\n"@ =~= seq!['\n']);
            assert(target[k as int] == ws@ + lines@[k as int]@);
            lemma_nl_terminated_push(target.take(k as int), target[k as int]);
            assert(target.take(k as int).push(target[k as int]) =~= target.take(k + 1 as int));
            assert(out@ =~= nl_terminated(target.take(k + 1 as int)));
        }
        k += 1;
    }
    proof {
        assert(target.take(target.len() as int) =~= target);
    }
    out
}

/// The text without its leading whitespace, as `str::trim_start` yields it.
pub fn trim_start_string(s: &String) -> (r: String)
    ensures
        r@ == trimmed_start(s@),
{
    let chars = str_chars(s.as_str());
    let mut i: usize = 0;
    while i < chars.len() && crate::utils::is_ws(chars[i])
        invariant
            0 <= i <= chars@.len(),
            chars@ == s@,
            forall|j: int| 0 <= j < i ==> crate::utils::is_ws_char(chars@[j]),
        decreases chars@.len() - i,
    {
        i += 1;
    }
    proof {
        crate::utils::lemma_ws_prefix_len_is(s@, i as int);
    }
    let kept = subvec_chars(&chars, i, chars.len());
    proof {
        assert(kept@ =~= trimmed_start(s@));
    }
    string_from_chars(&kept)
}

/// Replaces the line range `[s, e)` of the document with `lines`.
pub fn replace_lines(buf: Vec<String>, s: usize, e: usize, lines: Vec<String>) -> (r: Vec<String>)
    requires
        s <= e <= buf@.len(),
    ensures
        r.deep_view() == buf.deep_view().take(s as int) + lines.deep_view() + buf.deep_view().skip(
            e as int,
        ),
{
    let ghost orig = buf.deep_view();
    let ghost mid_dv = lines.deep_view();
    let mut b = buf;
    let mut tail = b.split_off(e);
    b.truncate(s);
    let mut mid = lines;
    b.append(&mut mid);
    b.append(&mut tail);
    proof {
        assert(b.deep_view() =~~= orig.take(s as int) + mid_dv + orig.skip(e as int));
    }
    b
}

/// Splicing, one outcome at a time, over a document whose pre-edit line
/// count is `orig_len`. Each successful outcome is re-indented with the
/// leading whitespace of its codeblock's offset-adjusted first row,
/// fingerprinted with the injected indentation of its first line ignored,
/// and written over its offset-adjusted content span; a difference of
/// fingerprints marks the document changed, and in fail-fast mode ends
/// processing at once. A failed outcome aborts the run with its error, or,
/// in best-effort mode, leaves its codeblock untouched.
pub open spec fn spec_splice(
    buf: Seq<Seq<char>>,
    orig_len: int,
    outs: Seq<OutcomeV>,
    fail_fast: bool,
    best_effort: bool,
    changed: bool,
) -> Result<(Seq<Seq<char>>, bool), FormatError>
    decreases outs.len(),
{
    if outs.len() == 0 {
        Ok((buf, changed))
    } else {
        let o = outs[0];
        match o.output {
            Err(e) => if best_effort {
                spec_splice(buf, orig_len, outs.skip(1), fail_fast, best_effort, changed)
            } else {
                Err(e)
            },
            Ok(content) => {
                let pos_cb = buf.len() - (orig_len - o.block.codeblock_start);
                let ws = leading_ws(buf[pos_cb]);
                let fixed = fixed_output_spec(ws, content);
                let out_hash = fingerprint_of(trimmed_start(fixed));
                let differs = o.input_hash != out_hash;
                if differs && fail_fast {
                    Ok((buf, true))
                } else {
                    let s = buf.len() - (orig_len - o.block.start);
                    let e2 = buf.len() - (orig_len - o.block.end);
                    let buf2 = buf.take(s) + split_lines_spec(fixed) + buf.skip(e2);
                    spec_splice(
                        buf2,
                        orig_len,
                        outs.skip(1),
                        fail_fast,
                        best_effort,
                        changed || differs,
                    )
                }
            },
        }
    }
}

/// The ordering invariant the splicer maintains while it walks the
/// outcomes: the remaining blocks are in bounds, non-overlapping and
/// ascending, and the first of them starts at or after the end of the last
/// spliced block.
pub open spec fn chain_wf(prev_end: int, bs: Seq<CodeblockV>, n: int) -> bool {
    &&& 0 <= prev_end <= n
    &&& codeblocks_wf(bs, n)
    &&& bs.len() > 0 ==> bs[0].codeblock_start >= prev_end
}

proof fn lemma_chain_wf_step(prev_end: int, bs: Seq<CodeblockV>, n: int)
    requires
        chain_wf(prev_end, bs, n),
        bs.len() > 0,
    ensures
        chain_wf(bs[0].end, bs.skip(1), n),
        block_wf(bs[0], n),
        bs[0].end >= prev_end,
{
    assert(block_wf(bs[0], n));
    let rest = bs.skip(1);
    assert forall|i: int| 0 <= i < rest.len() implies block_wf(#[trigger] rest[i], n) by {
        assert(rest[i] == bs[i + 1]);
    }
    assert forall|i: int|
        0 < i < rest.len() implies (#[trigger] rest[i]).codeblock_start >= rest[i - 1].end by {
        assert(rest[i] == bs[i + 1]);
        assert(rest[i - 1] == bs[i]);
    }
    if rest.len() > 0 {
        assert(rest[0] == bs[1]);
    }
}

/// Checks at run time that an outcome list's blocks satisfy the codeblock
/// invariant for a document of `line_count` lines.
pub fn check_outcome_blocks(outcomes: &Vec<FormatOutcome>, line_count: usize) -> (b: bool)
    ensures
        b == codeblocks_wf(blocks_of(outs_view(outcomes@)), line_count as int),
{
    let ghost bs = blocks_of(outs_view(outcomes@));
    let mut i: usize = 0;
    while i < outcomes.len()
        invariant
            0 <= i <= outcomes@.len(),
            bs == blocks_of(outs_view(outcomes@)),
            bs.len() == outcomes@.len(),
            forall|k: int| 0 <= k < i ==> block_wf(#[trigger] bs[k], line_count as int),
            forall|k: int| 0 < k < i ==> (#[trigger] bs[k]).codeblock_start >= bs[k - 1].end,
        decreases outcomes@.len() - i,
    {
        let b = &outcomes[i].job.block;
        proof {
            assert(bs[i as int] == outcomes@[i as int].job.block@);
        }
        if !(b.codeblock_start <= b.start && b.start <= b.end && b.end <= line_count
            && b.codeblock_start < line_count) {
            proof {
                assert(!block_wf(bs[i as int], line_count as int));
            }
            return false;
        }
        if i > 0 {
            let p = &outcomes[i - 1].job.block;
            proof {
                assert(bs[i as int - 1] == outcomes@[i as int - 1].job.block@);
            }
            if b.codeblock_start < p.end {
                proof {
                    assert((bs[i as int]).codeblock_start < bs[i as int - 1].end);
                }
                return false;
            }
        }
        i += 1;
    }
    true
}

/// Applies the drained outcomes to the document, in submission order,
/// exactly as [`spec_splice`] describes: offset-adjusted splicing with
/// re-indentation, fingerprint-based change detection, and fail-fast and
/// best-effort handling.
#[verifier::loop_isolation(false)]
pub fn splice(
    buf: Vec<String>,
    outcomes: Vec<FormatOutcome>,
    fail_fast: bool,
    best_effort: bool,
) -> (r: Result<(Vec<String>, bool), FormatError>)
    requires
        codeblocks_wf(blocks_of(outs_view(outcomes@)), buf@.len() as int),
    ensures
        ({
            let spec_r = spec_splice(
                buf.deep_view(),
                buf@.len() as int,
                outs_view(outcomes@),
                fail_fast,
                best_effort,
                false,
            );
            match r {
                Ok(p) => spec_r is Ok && p.0.deep_view() == spec_r->Ok_0.0 && p.1
                    == spec_r->Ok_0.1,
                Err(e) => spec_r is Err && e == spec_r->Err_0,
            }
        }),
{
    let orig_len = buf.len();
    let ghost n = buf@.len() as int;
    let ghost buf0 = buf.deep_view();
    let ghost outs0 = outs_view(outcomes@);
    let mut cur = buf;
    let mut rem = outcomes;
    let mut changed = false;
    let ghost mut prev_end: int = 0;
    while rem.len() > 0
        invariant
            orig_len as int == n,
            chain_wf(prev_end, blocks_of(outs_view(rem@)), n),
            cur@.len() as int >= n - prev_end,
            spec_splice(cur.deep_view(), n, outs_view(rem@), fail_fast, best_effort, changed)
                == spec_splice(buf0, n, outs0, fail_fast, best_effort, false),
        decreases rem@.len(),
    {
        let ghost old_list = rem@;
        let ghost old_outs = outs_view(rem@);
        let ghost old_dv = cur.deep_view();
        let ghost changed_old = changed;
        let o = rem.remove(0);
        proof {
            assert(old_list.remove(0) =~= old_list.skip(1));
            assert(outs_view(rem@) =~= old_outs.skip(1));
            assert(blocks_of(old_outs.skip(1)) =~= blocks_of(old_outs).skip(1));
            lemma_chain_wf_step(prev_end, blocks_of(old_outs), n);
            assert(old_outs[0] == o@);
            assert(blocks_of(old_outs)[0] == o@.block);
        }
        let FormatOutcome { job, output } = o;
        match output {
            Err(e) => {
                if !best_effort {
                    proof {
                        assert(spec_splice(old_dv, n, old_outs, fail_fast, best_effort, changed_old)
                            == Err::<(Seq<Seq<char>>, bool), FormatError>(e));
                    }
                    return Err(e);
                }
                proof {
                    prev_end = job.block@.end;
                    assert(spec_splice(old_dv, n, old_outs, fail_fast, best_effort, changed_old)
                        == spec_splice(
                        old_dv,
                        n,
                        old_outs.skip(1),
                        fail_fast,
                        best_effort,
                        changed_old,
                    ));
                }
            },
            Ok(content) => {
                proof {
                    assert(block_wf(job.block@, n));
                }
                let deficit_cb = orig_len - job.block.codeblock_start;
                proof {
                    assert(job.block@.codeblock_start >= prev_end);
                    assert(deficit_cb as int <= n - prev_end);
                }
                let pos_cb = cur.len() - deficit_cb;
                proof {
                    assert(pos_cb as int == old_dv.len() - (n - o@.block.codeblock_start));
                    assert(pos_cb < cur@.len());
                    assert(old_dv[pos_cb as int] == cur@[pos_cb as int]@);
                }
                let ws = get_start_whitespace(cur[pos_cb].as_str());
                let fixed = indent_and_terminate(&ws, &content);
                let trimmed = trim_start_string(&fixed);
                let output_hash = get_hash(trimmed.as_str());
                let differs = output_hash != job.input_hash;
                let ghost fixed_spec = fixed_output_spec(
                    leading_ws(old_dv[pos_cb as int]),
                    content@,
                );
                proof {
                    assert(fixed@ == fixed_spec);
                    assert(differs == (o@.input_hash != fingerprint_of(trimmed_start(fixed_spec))));
                }
                if differs {
                    changed = true;
                    if fail_fast {
                        proof {
                            assert(spec_splice(
                                old_dv,
                                n,
                                old_outs,
                                fail_fast,
                                best_effort,
                                changed_old,
                            ) == Ok::<(Seq<Seq<char>>, bool), FormatError>((old_dv, true)));
                        }
                        return Ok((cur, true));
                    }
                }
                let new_lines = split_lines(fixed.as_str());
                let s_pos = cur.len() - (orig_len - job.block.start);
                let e_pos = cur.len() - (orig_len - job.block.end);
                proof {
                    assert(s_pos as int == old_dv.len() - (n - o@.block.start));
                    assert(e_pos as int == old_dv.len() - (n - o@.block.end));
                    assert(s_pos <= e_pos <= cur@.len());
                }
                cur = replace_lines(cur, s_pos, e_pos, new_lines);
                proof {
                    prev_end = job.block@.end;
                    assert(cur.deep_view() == old_dv.take(s_pos as int) + split_lines_spec(
                        fixed_spec,
                    ) + old_dv.skip(e_pos as int));
                    assert(spec_splice(old_dv, n, old_outs, fail_fast, best_effort, changed_old)
                        == spec_splice(
                        cur.deep_view(),
                        n,
                        old_outs.skip(1),
                        fail_fast,
                        best_effort,
                        changed_old || differs,
                    ));
                    assert(changed == (changed_old || differs));
                    assert(cur@.len() as int == s_pos + split_lines_spec(fixed_spec).len() + (
                    old_dv.len() - e_pos));
                    assert(cur@.len() as int >= n - prev_end);
                }
            },
        }
    }
    proof {
        assert(outs_view(rem@) =~= Seq::<OutcomeV>::empty());
        assert(spec_splice(
            cur.deep_view(),
            n,
            Seq::<OutcomeV>::empty(),
            fail_fast,
            best_effort,
            changed,
        ) == Ok::<(Seq<Seq<char>>, bool), FormatError>((cur.deep_view(), changed)));
    }
    Ok((cur, changed))
}

/// The verdict of a spliced document: its lines rejoined with a guaranteed
/// trailing newline, marked changed or unchanged.
pub fn finish(buf: &Vec<String>, changed: bool) -> (r: FormatResult)
    ensures
        changed ==> r is Changed && r->Changed_0@ == joined_src(buf.deep_view()) + seq!['\n'],
        !changed ==> r is Unchanged && r->Unchanged_0@ == joined_src(buf.deep_view())
            + seq!['\n'],
{
    let text = crate::utils::render_output(buf);
    if changed {
        FormatResult::Changed(text)
    } else {
        FormatResult::Unchanged(text)
    }
}

/// A completion-order result list that can be drained in submission order:
/// exactly one result per slot, every slot index in range.
pub open spec fn valid_results<T>(n: int, rs: Seq<(usize, T)>) -> bool {
    &&& rs.len() == n
    &&& forall|j: int| 0 <= j < rs.len() ==> (#[trigger] rs[j]).0 < n
    &&& forall|j: int, k: int|
        0 <= j < k < rs.len() ==> (#[trigger] rs[j]).0 != (#[trigger] rs[k]).0
}

/// Some result in `rs`, at or after position `lo`, fills slot `i`.
pub open spec fn covered_from<T>(rs: Seq<(usize, T)>, lo: int, i: int) -> bool {
    exists|j: int| lo <= j < rs.len() && (#[trigger] rs[j]).0 == i
}

/// Some result in `rs` fills slot `i`.
pub open spec fn covered<T>(rs: Seq<(usize, T)>, i: int) -> bool {
    covered_from(rs, 0, i)
}

/// What draining in submission order yields: the result of slot `i` stands
/// at position `i`, whatever order the results arrived in.
pub open spec fn collect_post<T>(n: int, rs: Seq<(usize, T)>, out: Seq<T>) -> bool {
    &&& out.len() == n
    &&& forall|j: int|
        0 <= j < rs.len() ==> (#[trigger] rs[j]).0 < n && out[rs[j].0 as int] == rs[j].1
    &&& forall|i: int| 0 <= i < n ==> #[trigger] covered(rs, i)
}

/// How many slots hold a result.
pub open spec fn count_some<T>(s: Seq<Option<T>>) -> int
    decreases s.len(),
{
    if s.len() == 0 {
        0
    } else {
        count_some(s.drop_last()) + if s.last() is Some {
            1int
        } else {
            0int
        }
    }
}

proof fn lemma_count_some_le<T>(s: Seq<Option<T>>)
    ensures
        0 <= count_some(s) <= s.len(),
    decreases s.len(),
{
    if s.len() > 0 {
        lemma_count_some_le(s.drop_last());
    }
}

proof fn lemma_count_some_full<T>(s: Seq<Option<T>>)
    requires
        count_some(s) == s.len(),
    ensures
        forall|i: int| 0 <= i < s.len() ==> (#[trigger] s[i]) is Some,
    decreases s.len(),
{
    if s.len() > 0 {
        lemma_count_some_le(s.drop_last());
        assert(count_some(s.drop_last()) == s.len() - 1);
        lemma_count_some_full(s.drop_last());
        assert forall|i: int| 0 <= i < s.len() implies (#[trigger] s[i]) is Some by {
            if i < s.len() - 1 {
                assert(s.drop_last()[i] == s[i]);
            }
        }
    }
}

proof fn lemma_count_some_update<T>(s: Seq<Option<T>>, i: int, v: T)
    requires
        0 <= i < s.len(),
        s[i] is None,
    ensures
        count_some(s.update(i, Some(v))) == count_some(s) + 1,
    decreases s.len(),
{
    let u = s.update(i, Some(v));
    if i == s.len() - 1 {
        assert(u.drop_last() =~= s.drop_last());
        assert(u.last() == Some(v));
        assert(s.last() is None);
    } else {
        assert(u.drop_last() =~= s.drop_last().update(i, Some(v)));
        assert(u.last() == s.last());
        lemma_count_some_update(s.drop_last(), i, v);
    }
}

/// Drains a completion-order result list into submission order through a
/// pre-sized, index-addressed slot per result. `None` when the list does
/// not hold exactly one result per slot.
#[verifier::loop_isolation(false)]
pub fn collect_ordered<T>(n: usize, results: Vec<(usize, T)>) -> (r: Option<Vec<T>>)
    ensures
        (r is Some) == valid_results(n as int, results@),
        r is Some ==> collect_post(n as int, results@, r.unwrap()@),
{
    let ghost rs0 = results@;
    if results.len() != n {
        return None;
    }
    let mut slots: Vec<Option<T>> = Vec::new();
    let mut t: usize = 0;
    while t < n
        invariant
            0 <= t <= n,
            slots@.len() == t,
            count_some(slots@) == 0,
            forall|i: int| 0 <= i < t ==> (#[trigger] slots@[i]) is None,
        decreases n - t,
    {
        let ghost prev = slots@;
        slots.push(None);
        proof {
            assert(slots@.drop_last() =~= prev);
        }
        t += 1;
    }
    let mut rem = results;
    let mut filled: usize = 0;
    while rem.len() > 0
        invariant
            rem@ == rs0.take(rem@.len() as int),
            rem@.len() <= rs0.len(),
            slots@.len() == n,
            rs0.len() == n,
            filled as int == count_some(slots@),
            filled as int == rs0.len() - rem@.len(),
            forall|j: int|
                rem@.len() <= j < rs0.len() ==> (#[trigger] rs0[j]).0 < n && slots@[rs0[j].0 as int]
                    == Some(rs0[j].1),
            forall|i: int|
                0 <= i < n && (#[trigger] slots@[i]) is Some ==> covered_from(
                    rs0,
                    rem@.len() as int,
                    i,
                ),
            forall|j: int, k: int|
                rem@.len() <= j < k < rs0.len() ==> (#[trigger] rs0[j]).0 != (#[trigger] rs0[k]).0,
        decreases rem@.len(),
    {
        let ghost old_rem = rem@;
        let p = match rem.pop() {
            Some(p) => p,
            None => {
                proof {
                    assert(false);
                }
                return None;
            },
        };
        proof {
            assert(old_rem.last() == rs0[old_rem.len() - 1]);
            assert(rem@ =~= rs0.take(old_rem.len() - 1));
        }
        let (idx, val) = p;
        let ghost pos = old_rem.len() - 1;
        if idx >= n {
            proof {
                assert((rs0[pos]).0 >= n);
                assert(!valid_results(n as int, rs0));
            }
            return None;
        }
        if slots[idx].is_some() {
            proof {
                assert(covered_from(rs0, old_rem.len() as int, idx as int));
                let j = choose|j: int|
                    old_rem.len() <= j < rs0.len() && (#[trigger] rs0[j]).0 == idx as int;
                assert((rs0[pos]).0 == (rs0[j]).0);
                assert(!valid_results(n as int, rs0));
            }
            return None;
        }
        let ghost prev_slots = slots@;
        slots[idx] = Some(val);
        filled += 1;
        proof {
            assert(slots@ =~= prev_slots.update(idx as int, Some(val)));
            lemma_count_some_update(prev_slots, idx as int, val);
            assert forall|i: int|
                0 <= i < n && (#[trigger] slots@[i]) is Some implies covered_from(
                rs0,
                rem@.len() as int,
                i,
            ) by {
                if i == idx as int {
                    assert((rs0[pos]).0 == i && rem@.len() <= pos < rs0.len());
                } else {
                    assert(covered_from(rs0, old_rem.len() as int, i));
                    let j = choose|j: int|
                        old_rem.len() <= j < rs0.len() && (#[trigger] rs0[j]).0 == i;
                    assert(rem@.len() <= j < rs0.len() && (rs0[j]).0 == i);
                }
            }
        }
    }
    proof {
        assert(filled as int == n as int);
        lemma_count_some_full(slots@);
    }
    let ghost full_slots = slots@;
    let mut out: Vec<T> = Vec::new();
    let mut q: usize = 0;
    while q < n
        invariant
            0 <= q <= n,
            slots@.len() == n - q,
            out@.len() == q,
            forall|i: int| 0 <= i < n - q ==> #[trigger] slots@[i] == full_slots[i + q],
            forall|i: int| 0 <= i < q ==> Some(#[trigger] out@[i]) == full_slots[i],
        decreases n - q,
    {
        let ghost prev_slots = slots@;
        let s0 = slots.remove(0);
        match s0 {
            Some(v) => {
                out.push(v);
            },
            None => {
                proof {
                    assert(prev_slots[0] == full_slots[q as int]);
                    assert(false);
                }
                return None;
            },
        }
        q += 1;
    }
    proof {
        assert forall|j: int| 0 <= j < rs0.len() implies (#[trigger] rs0[j]).0 < n && out@[(
        rs0[j]).0 as int] == (rs0[j]).1 by {
            assert(full_slots[(rs0[j]).0 as int] == Some((rs0[j]).1));
        }
        assert forall|i: int| 0 <= i < n as int implies #[trigger] covered(rs0, i) by {
            assert(full_slots[i] is Some);
            assert(covered_from(rs0, 0, i));
        }
    }
    Some(out)
}


/// Ordered draining is order-independent: two completion orders that carry
/// the same indexed results drain to the same submission-order list.
pub proof fn lemma_collect_order_independent<T>(
    n: int,
    a: Seq<(usize, T)>,
    b: Seq<(usize, T)>,
    ra: Seq<T>,
    rb: Seq<T>,
)
    requires
        a.to_multiset() == b.to_multiset(),
        collect_post(n, a, ra),
        collect_post(n, b, rb),
    ensures
        ra == rb,
{
    broadcast use vstd::seq_lib::group_to_multiset_ensures;

    assert forall|i: int| 0 <= i < n implies ra[i] == rb[i] by {
        assert(covered(a, i));
        let j = choose|j: int| 0 <= j < a.len() && (#[trigger] a[j]).0 == i;
        let p = a[j];
        assert(ra[p.0 as int] == p.1);
        assert(a.contains(p));
        assert(a.to_multiset().count(p) > 0);
        assert(b.to_multiset().count(p) > 0);
        assert(b.contains(p));
        let k = choose|k: int| 0 <= k < b.len() && b[k] == p;
        assert(rb[(b[k]).0 as int] == (b[k]).1);
    }
    assert(ra =~= rb);
}

/// Whether an outcome's output, re-indented at its codeblock's adjusted
/// position in `buf`, fingerprints back to its input fingerprint.
pub open spec fn outcome_matches(buf: Seq<Seq<char>>, orig_len: int, o: OutcomeV) -> bool {
    &&& o.output is Ok
    &&& o.input_hash == fingerprint_of(
        trimmed_start(
            fixed_output_spec(
                leading_ws(buf[buf.len() - (orig_len - o.block.codeblock_start)]),
                o.output->Ok_0,
            ),
        ),
    )
}

/// Whether every outcome, applied in order, fingerprints back to its input
/// fingerprint in the document as it stands when the outcome is spliced.
pub open spec fn all_outcomes_match(buf: Seq<Seq<char>>, orig_len: int, outs: Seq<OutcomeV>) -> bool
    decreases outs.len(),
{
    if outs.len() == 0 {
        true
    } else {
        outcome_matches(buf, orig_len, outs[0]) && {
            let o = outs[0];
            let pos_cb = buf.len() - (orig_len - o.block.codeblock_start);
            let fixed = fixed_output_spec(leading_ws(buf[pos_cb]), o.output->Ok_0);
            let s = buf.len() - (orig_len - o.block.start);
            let e2 = buf.len() - (orig_len - o.block.end);
            let buf2 = buf.take(s) + split_lines_spec(fixed) + buf.skip(e2);
            all_outcomes_match(buf2, orig_len, outs.skip(1))
        }
    }
}

/// Idempotence: when every outcome's re-indented output fingerprints back
/// to its input fingerprint — a chain of idempotent formatters run over an
/// already formatted document — splicing reports the document unchanged.
pub proof fn lemma_splice_idempotent(
    buf: Seq<Seq<char>>,
    orig_len: int,
    outs: Seq<OutcomeV>,
    fail_fast: bool,
    best_effort: bool,
)
    requires
        all_outcomes_match(buf, orig_len, outs),
    ensures
        spec_splice(buf, orig_len, outs, fail_fast, best_effort, false) is Ok,
        spec_splice(buf, orig_len, outs, fail_fast, best_effort, false)->Ok_0.1 == false,
    decreases outs.len(),
{
    if outs.len() > 0 {
        let o = outs[0];
        let pos_cb = buf.len() - (orig_len - o.block.codeblock_start);
        let fixed = fixed_output_spec(leading_ws(buf[pos_cb]), o.output->Ok_0);
        let s = buf.len() - (orig_len - o.block.start);
        let e2 = buf.len() - (orig_len - o.block.end);
        let buf2 = buf.take(s) + split_lines_spec(fixed) + buf.skip(e2);
        lemma_splice_idempotent(buf2, orig_len, outs.skip(1), fail_fast, best_effort);
    }
}

/// Skip on no formatter: codeblocks whose languages have no configured
/// chain yield no jobs at all, and a run with no outcomes leaves the
/// document untouched and unchanged.
pub proof fn lemma_skip_unconfigured(
    bs: Seq<CodeblockV>,
    langs: Seq<(String, Vec<String>)>,
    buf: Seq<Seq<char>>,
    orig_len: int,
    fail_fast: bool,
    best_effort: bool,
)
    requires
        forall|i: int| 0 <= i < bs.len() ==> lookup_spec(langs, (#[trigger] bs[i]).language) is None,
    ensures
        plan_spec(bs, langs) == Seq::<JobV>::empty(),
        spec_splice(buf, orig_len, Seq::<OutcomeV>::empty(), fail_fast, best_effort, false) == Ok::<
            (Seq<Seq<char>>, bool),
            FormatError,
        >((buf, false)),
    decreases bs.len(),
{
    if bs.len() > 0 {
        assert forall|i: int|
            0 <= i < bs.skip(1).len() implies lookup_spec(
            langs,
            (#[trigger] bs.skip(1)[i]).language,
        ) is None by {
            assert(bs.skip(1)[i] == bs[i + 1]);
        }
        lemma_skip_unconfigured(bs.skip(1), langs, buf, orig_len, fail_fast, best_effort);
    }
}

/// No line yielded by line splitting holds a newline.
pub proof fn lemma_split_lines_no_nl(s: Seq<char>)
    ensures
        forall|i: int|
            0 <= i < split_lines_spec(s).len() ==> !(#[trigger] split_lines_spec(s)[i]).contains(
                '\n',
            ),
    decreases s.len(),
{
    if s.len() > 0 {
        let i = crate::utils::first_nl(s);
        crate::utils::lemma_first_nl_bounds(s);
        if i == s.len() {
            assert(split_lines_spec(s) == seq![s]);
            assert(!s.contains('\n')) by {
                if s.contains('\n') {
                    let j = choose|j: int| 0 <= j < s.len() && s[j] == '\n';
                    assert(false);
                }
            }
        } else {
            lemma_split_lines_no_nl(s.skip(i + 1));
            let head = crate::utils::strip_cr(s.take(i));
            assert(!head.contains('\n')) by {
                if head.contains('\n') {
                    let j = choose|j: int| 0 <= j < head.len() && head[j] == '\n';
                    assert(head[j] == s[j]);
                    assert(false);
                }
            }
            assert(split_lines_spec(s) == seq![head] + split_lines_spec(s.skip(i + 1)));
            assert forall|k: int|
                0 <= k < split_lines_spec(s).len() implies !(#[trigger] split_lines_spec(
                s,
            )[k]).contains('\n') by {
                if k > 0 {
                    assert(split_lines_spec(s)[k] == split_lines_spec(s.skip(i + 1))[k - 1]);
                }
            }
        }
    }
}

/// Splitting newline-terminated lines gives the lines back, provided no
/// line holds a newline or ends in a bare carriage return.
pub proof fn lemma_nl_round_trip(lines: Seq<Seq<char>>)
    requires
        forall|i: int| 0 <= i < lines.len() ==> !(#[trigger] lines[i]).contains('\n'),
        forall|i: int|
            0 <= i < lines.len() ==> ((#[trigger] lines[i]).len() > 0 ==> lines[i].last() != '\r'),
    ensures
        split_lines_spec(nl_terminated(lines)) == lines,
    decreases lines.len(),
{
    if lines.len() > 0 {
        let l0 = lines[0];
        let rest_text = nl_terminated(lines.skip(1));
        let t = nl_terminated(lines);
        assert(t == l0 + seq!['\n'] + rest_text);
        assert forall|j: int| 0 <= j < l0.len() implies t[j] != '\n' by {
            assert(t[j] == l0[j]);
            if l0[j] == '\n' {
                assert(l0.contains('\n'));
            }
        }
        assert(t[l0.len() as int] == '\n');
        crate::utils::lemma_first_nl_is(t, l0.len() as int);
        assert(t.take(l0.len() as int) =~= l0);
        assert(crate::utils::strip_cr(l0) == l0);
        assert(t.skip(l0.len() as int + 1) =~= rest_text);
        assert forall|i: int|
            0 <= i < lines.skip(1).len() implies !(#[trigger] lines.skip(1)[i]).contains('\n') && (
        lines.skip(1)[i].len() > 0 ==> lines.skip(1)[i].last() != '\r') by {
            assert(lines.skip(1)[i] == lines[i + 1]);
        }
        lemma_nl_round_trip(lines.skip(1));
        assert(split_lines_spec(t) == seq![l0] + lines.skip(1));
        assert(seq![l0] + lines.skip(1) =~= lines);
    } else {
        assert(nl_terminated(lines) == Seq::<char>::empty());
    }
}

/// Indentation preservation: the lines written over a codeblock's span are
/// exactly the chain's output lines, each prefixed with the codeblock
/// row's leading whitespace — provided the indentation holds no newline
/// and neither it nor any output line ends in a bare carriage return.
pub proof fn lemma_indentation_preserved(ws: Seq<char>, content: Seq<char>)
    requires
        !ws.contains('\n'),
        ws.len() > 0 ==> ws.last() != '\r',
        forall|i: int|
            0 <= i < split_lines_spec(content).len() ==> ((#[trigger] split_lines_spec(
                content,
            )[i]).len() > 0 ==> split_lines_spec(content)[i].last() != '\r'),
    ensures
        split_lines_spec(fixed_output_spec(ws, content)) == indent_lines(
            ws,
            split_lines_spec(content),
        ),
{
    let sl = split_lines_spec(content);
    let ind = indent_lines(ws, sl);
    lemma_split_lines_no_nl(content);
    assert forall|i: int| 0 <= i < ind.len() implies !(#[trigger] ind[i]).contains('\n') && (
    ind[i].len() > 0 ==> ind[i].last() != '\r') by {
        assert(ind[i] == ws + sl[i]);
        if (ws + sl[i]).contains('\n') {
            let j = choose|j: int| 0 <= j < (ws + sl[i]).len() && (ws + sl[i])[j] == '\n';
            if j < ws.len() {
                assert(ws[j] == '\n');
                assert(ws.contains('\n'));
            } else {
                assert(sl[i][j - ws.len()] == '\n');
                assert(sl[i].contains('\n'));
            }
            assert(false);
        }
        if ind[i].len() > 0 {
            if sl[i].len() > 0 {
                assert(ind[i].last() == sl[i].last());
            } else {
                assert(ind[i] =~= ws);
            }
        }
    }
    lemma_nl_round_trip(ind);
}

/// The re-indented, newline-terminated output of one outcome, with the
/// indentation read from the document as it stood before any splicing —
/// legitimate because a codeblock's first row lies outside every earlier
/// outcome's span.
pub open spec fn block_fixed(buf0: Seq<Seq<char>>, o: OutcomeV) -> Seq<char> {
    fixed_output_spec(leading_ws(buf0[o.block.codeblock_start]), o.output->Ok_0)
}

/// The lines an outcome writes over its span.
pub open spec fn block_lines(buf0: Seq<Seq<char>>, o: OutcomeV) -> Seq<Seq<char>> {
    split_lines_spec(block_fixed(buf0, o))
}

/// Whether an outcome's output fingerprints differently from its input.
pub open spec fn block_differs(buf0: Seq<Seq<char>>, o: OutcomeV) -> bool {
    o.input_hash != fingerprint_of(trimmed_start(block_fixed(buf0, o)))
}

/// The final document a run of successful outcomes produces, reading from
/// row `from` on: the untouched lines up to each span, then that outcome's
/// output lines, and the untouched tail after the last span.
pub open spec fn spliced_tail(base: Seq<Seq<char>>, outs: Seq<OutcomeV>, from: int) -> Seq<
    Seq<char>,
>
    decreases outs.len(),
{
    if outs.len() == 0 {
        base.skip(from)
    } else {
        base.subrange(from, outs[0].block.start) + block_lines(base, outs[0]) + spliced_tail(
            base,
            outs.skip(1),
            outs[0].block.end,
        )
    }
}

/// Whether some outcome's output fingerprints differently from its input.
pub open spec fn any_differs(base: Seq<Seq<char>>, outs: Seq<OutcomeV>) -> bool
    decreases outs.len(),
{
    if outs.len() == 0 {
        false
    } else {
        block_differs(base, outs[0]) || any_differs(base, outs.skip(1))
    }
}

proof fn lemma_splice_form_step(
    cur: Seq<Seq<char>>,
    orig_len: int,
    outs: Seq<OutcomeV>,
    best_effort: bool,
    changed: bool,
    base: Seq<Seq<char>>,
    prev_end: int,
)
    requires
        chain_wf(prev_end, blocks_of(outs), orig_len),
        cur.len() >= orig_len - prev_end,
        cur.skip(cur.len() - (orig_len - prev_end)) == base.skip(prev_end),
        base.len() == orig_len,
        forall|j: int| 0 <= j < outs.len() ==> (#[trigger] outs[j]).output is Ok,
    ensures
        spec_splice(cur, orig_len, outs, false, best_effort, changed) == Ok::<
            (Seq<Seq<char>>, bool),
            FormatError,
        >(
            (
                cur.take(cur.len() - (orig_len - prev_end)) + spliced_tail(base, outs, prev_end),
                changed || any_differs(base, outs),
            ),
        ),
    decreases outs.len(),
{
    let split = cur.len() - (orig_len - prev_end);
    if outs.len() == 0 {
        assert(cur.take(split) + spliced_tail(base, outs, prev_end) =~= cur);
    } else {
        let o = outs[0];
        assert(blocks_of(outs)[0] == o.block);
        lemma_chain_wf_step(prev_end, blocks_of(outs), orig_len);
        assert(blocks_of(outs.skip(1)) =~= blocks_of(outs).skip(1));
        let cb = o.block.codeblock_start;
        let s = o.block.start;
        let e = o.block.end;
        let pos_cb = cur.len() - (orig_len - cb);
        assert(cur[pos_cb] == base[cb]) by {
            assert(cur[pos_cb] == cur.skip(split)[cb - prev_end]);
            assert(base.skip(prev_end)[cb - prev_end] == base[cb]);
        }
        let lines = block_lines(base, o);
        let s_pos = cur.len() - (orig_len - s);
        let e_pos = cur.len() - (orig_len - e);
        let cur2 = cur.take(s_pos) + split_lines_spec(block_fixed(base, o)) + cur.skip(e_pos);
        assert(spec_splice(cur, orig_len, outs, false, best_effort, changed) == spec_splice(
            cur2,
            orig_len,
            outs.skip(1),
            false,
            best_effort,
            changed || block_differs(base, o),
        ));
        let split2 = cur2.len() - (orig_len - e);
        assert(split2 == s_pos + lines.len());
        assert(cur2.skip(split2) =~~= base.skip(e)) by {
            assert forall|k: int| 0 <= k < cur2.len() - split2 implies cur2.skip(split2)[k]
                == base.skip(e)[k] by {
                assert(cur2.skip(split2)[k] == cur.skip(e_pos)[k]);
                assert(cur[e_pos + k] == cur.skip(split)[e - prev_end + k]);
                assert(base.skip(prev_end)[e - prev_end + k] == base[e + k]);
            }
        }
        lemma_splice_form_step(
            cur2,
            orig_len,
            outs.skip(1),
            best_effort,
            changed || block_differs(base, o),
            base,
            e,
        );
        assert(cur2.take(split2) =~~= cur.take(split) + base.subrange(prev_end, s) + lines) by {
            assert forall|k: int| 0 <= k < split2 implies cur2.take(split2)[k] == (cur.take(split)
                + base.subrange(prev_end, s) + lines)[k] by {
                if k < s_pos {
                    assert(cur2[k] == cur[k]);
                    if k >= split {
                        assert(cur[k] == cur.skip(split)[k - split]);
                        assert(base.skip(prev_end)[k - split] == base[prev_end + k - split]);
                    }
                } else {
                    assert(cur2[k] == lines[k - s_pos]);
                }
            }
        }
        assert(cur2.take(split2) + spliced_tail(base, outs.skip(1), e) =~~= cur.take(split)
            + spliced_tail(base, outs, prev_end));
    }
}

/// Offset correctness in general: a run of successful outcomes yields
/// exactly the interleaving of the untouched line ranges with each
/// outcome's output lines, placed over its own span — so every line
/// outside the spans is byte-identical to the original — and the document
/// is changed exactly when some outcome's output fingerprints differently.
pub proof fn lemma_splice_placement(buf: Seq<Seq<char>>, outs: Seq<OutcomeV>, best_effort: bool)
    requires
        chain_wf(0, blocks_of(outs), buf.len() as int),
        forall|j: int| 0 <= j < outs.len() ==> (#[trigger] outs[j]).output is Ok,
    ensures
        spec_splice(buf, buf.len() as int, outs, false, best_effort, false) == Ok::<
            (Seq<Seq<char>>, bool),
            FormatError,
        >((spliced_tail(buf, outs, 0), any_differs(buf, outs))),
{
    assert(buf.skip(buf.len() - buf.len() as int) =~= buf.skip(0));
    assert(buf.skip(0) =~= buf);
    lemma_splice_form_step(buf, buf.len() as int, outs, best_effort, false, buf, 0);
    assert(buf.take(0) + spliced_tail(buf, outs, 0) =~= spliced_tail(buf, outs, 0));
}

/// The line-count drift accumulated by the outcomes whose spans lie
/// entirely before row `q`.
pub open spec fn drift_before(base: Seq<Seq<char>>, outs: Seq<OutcomeV>, q: int) -> int
    decreases outs.len(),
{
    if outs.len() == 0 {
        0
    } else if outs[0].block.end <= q {
        (block_lines(base, outs[0]).len() - (outs[0].block.end - outs[0].block.start))
            + drift_before(base, outs.skip(1), q)
    } else {
        0
    }
}

/// A row outside every outcome's span survives splicing byte-identically,
/// at its position shifted by the drift of the spans before it.
pub proof fn lemma_untouched_line(
    base: Seq<Seq<char>>,
    outs: Seq<OutcomeV>,
    from: int,
    q: int,
)
    requires
        chain_wf(from, blocks_of(outs), base.len() as int),
        from <= q < base.len(),
        forall|j: int|
            0 <= j < outs.len() ==> !((#[trigger] outs[j]).block.start <= q
                && q < outs[j].block.end),
    ensures
        0 <= q - from + drift_before(base, outs, q) < spliced_tail(base, outs, from).len(),
        spliced_tail(base, outs, from)[q - from + drift_before(base, outs, q)] == base[q],
    decreases outs.len(),
{
    if outs.len() == 0 {
        assert(spliced_tail(base, outs, from)[q - from] == base.skip(from)[q - from]);
    } else {
        let o = outs[0];
        assert(blocks_of(outs)[0] == o.block);
        lemma_chain_wf_step(from, blocks_of(outs), base.len() as int);
        assert(blocks_of(outs.skip(1)) =~= blocks_of(outs).skip(1));
        let s = o.block.start;
        let e = o.block.end;
        let lines = block_lines(base, o);
        let tail = spliced_tail(base, outs, from);
        assert(tail == base.subrange(from, s) + lines + spliced_tail(base, outs.skip(1), e));
        if q < s {
            assert(drift_before(base, outs, q) == 0);
            assert(tail[q - from] == base.subrange(from, s)[q - from]);
        } else {
            assert(q >= e);
            assert forall|j: int|
                0 <= j < outs.skip(1).len() implies !((#[trigger] outs.skip(1)[j]).block.start <= q
                && q < outs.skip(1)[j].block.end) by {
                assert(outs.skip(1)[j] == outs[j + 1]);
            }
            lemma_untouched_line(base, outs.skip(1), e, q);
            let dr = drift_before(base, outs.skip(1), q);
            assert(drift_before(base, outs, q) == (lines.len() - (e - s)) + dr);
            let prefix = (s - from) + lines.len();
            assert(q - from + drift_before(base, outs, q) == prefix + (q - e + dr));
            assert(tail[prefix + (q - e + dr)] == spliced_tail(base, outs.skip(1), e)[q - e + dr]);
        }
    }
}

proof fn lemma_no_differs(base: Seq<Seq<char>>, outs: Seq<OutcomeV>)
    requires
        forall|j: int| 0 <= j < outs.len() ==> !block_differs(base, #[trigger] outs[j]),
    ensures
        !any_differs(base, outs),
    decreases outs.len(),
{
    if outs.len() > 0 {
        assert forall|j: int|
            0 <= j < outs.skip(1).len() implies !block_differs(base, #[trigger] outs.skip(1)[j]) by {
            assert(outs.skip(1)[j] == outs[j + 1]);
        }
        lemma_no_differs(base, outs.skip(1));
    }
}

/// Skip on no formatter, mixed with formatted blocks: when every
/// dispatched outcome's output fingerprints back to its input, the run is
/// reported unchanged, and any row outside the dispatched spans — in
/// particular every row of a codeblock whose language is unconfigured,
/// which is never dispatched (see [`lemma_plan_keeps_configured`]) — is
/// byte-identical at its shifted position.
pub proof fn lemma_mixed_run_unchanged(
    buf: Seq<Seq<char>>,
    outs: Seq<OutcomeV>,
    best_effort: bool,
    q: int,
)
    requires
        chain_wf(0, blocks_of(outs), buf.len() as int),
        forall|j: int| 0 <= j < outs.len() ==> (#[trigger] outs[j]).output is Ok,
        forall|j: int| 0 <= j < outs.len() ==> !block_differs(buf, #[trigger] outs[j]),
        0 <= q < buf.len(),
        forall|j: int|
            0 <= j < outs.len() ==> !((#[trigger] outs[j]).block.start <= q
                && q < outs[j].block.end),
    ensures
        spec_splice(buf, buf.len() as int, outs, false, best_effort, false) == Ok::<
            (Seq<Seq<char>>, bool),
            FormatError,
        >((spliced_tail(buf, outs, 0), false)),
        spliced_tail(buf, outs, 0)[q + drift_before(buf, outs, q)] == buf[q],
{
    lemma_no_differs(buf, outs);
    lemma_splice_placement(buf, outs, best_effort);
    lemma_untouched_line(buf, outs, 0, q);
}

/// Offset correctness for three codeblocks, whose outputs may have more,
/// equally many, or fewer lines than their spans: each block's output
/// lands exactly over its own span, every line outside the three spans is
/// the original line, and the document is changed exactly when some
/// block's output fingerprints differently.
pub proof fn lemma_three_block_offsets(
    buf: Seq<Seq<char>>,
    o1: OutcomeV,
    o2: OutcomeV,
    o3: OutcomeV,
    best_effort: bool,
)
    requires
        chain_wf(0, blocks_of(seq![o1, o2, o3]), buf.len() as int),
        o1.output is Ok,
        o2.output is Ok,
        o3.output is Ok,
    ensures
        ({
            let r = spec_splice(
                buf,
                buf.len() as int,
                seq![o1, o2, o3],
                false,
                best_effort,
                false,
            );
            &&& r is Ok
            &&& r->Ok_0.0 == buf.take(o1.block.start) + block_lines(buf, o1) + buf.subrange(
                o1.block.end,
                o2.block.start,
            ) + block_lines(buf, o2) + buf.subrange(o2.block.end, o3.block.start) + block_lines(
                buf,
                o3,
            ) + buf.skip(o3.block.end)
            &&& r->Ok_0.1 == (block_differs(buf, o1) || block_differs(buf, o2) || block_differs(
                buf,
                o3,
            ))
        }),
{
    let outs = seq![o1, o2, o3];
    assert forall|j: int| 0 <= j < outs.len() implies (#[trigger] outs[j]).output is Ok by {
        if j == 0 {
            assert(outs[0] == o1);
        } else if j == 1 {
            assert(outs[1] == o2);
        } else {
            assert(outs[2] == o3);
        }
    }
    lemma_splice_placement(buf, outs, best_effort);
    assert(outs[0] == o1);
    assert(seq![o2, o3][0] == o2);
    assert(seq![o3][0] == o3);
    assert(outs.skip(1) =~= seq![o2, o3]);
    assert(seq![o2, o3].skip(1) =~= seq![o3]);
    assert(seq![o3].skip(1) =~= Seq::<OutcomeV>::empty());
    assert(any_differs(buf, Seq::<OutcomeV>::empty()) == false);
    assert(spliced_tail(buf, Seq::<OutcomeV>::empty(), o3.block.end) == buf.skip(o3.block.end));
    assert(any_differs(buf, seq![o3]) == block_differs(buf, o3));
    assert(any_differs(buf, seq![o2, o3]) == (block_differs(buf, o2) || any_differs(
        buf,
        seq![o3],
    )));
    assert(any_differs(buf, outs) == (block_differs(buf, o1) || any_differs(buf, seq![o2, o3])));
    assert(spliced_tail(buf, seq![o3], o2.block.end) == buf.subrange(
        o2.block.end,
        o3.block.start,
    ) + block_lines(buf, o3) + buf.skip(o3.block.end));
    assert(spliced_tail(buf, seq![o2, o3], o1.block.end) == buf.subrange(
        o1.block.end,
        o2.block.start,
    ) + block_lines(buf, o2) + spliced_tail(buf, seq![o3], o2.block.end));
    assert(spliced_tail(buf, outs, 0) == buf.subrange(0, o1.block.start) + block_lines(buf, o1)
        + spliced_tail(buf, seq![o2, o3], o1.block.end));
    assert(buf.subrange(0, o1.block.start) =~= buf.take(o1.block.start));
    assert(spliced_tail(buf, outs, 0) =~~= buf.take(o1.block.start) + block_lines(buf, o1)
        + buf.subrange(o1.block.end, o2.block.start) + block_lines(buf, o2) + buf.subrange(
        o2.block.end,
        o3.block.start,
    ) + block_lines(buf, o3) + buf.skip(o3.block.end));
    assert(any_differs(buf, outs) == (block_differs(buf, o1) || block_differs(buf, o2)
        || block_differs(buf, o3)));
}

/// Fingerprint insensitivity to the injected indentation: trimming the
/// re-indented output strips exactly the prefix injected into its first
/// line, and nothing else — so the fingerprint compares the output with
/// only that injected prefix ignored. Needs the output's first character
/// to be non-whitespace (trimming would otherwise also strip the
/// fragment's own leading whitespace, as in the original comparison).
pub proof fn lemma_trim_ignores_injected_indent(ws: Seq<char>, content: Seq<char>)
    requires
        forall|i: int| 0 <= i < ws.len() ==> is_ws_char(#[trigger] ws[i]),
        content.len() > 0,
        !is_ws_char(content[0]),
    ensures
        trimmed_start(fixed_output_spec(ws, content)) == fixed_output_spec(ws, content).skip(
            ws.len() as int,
        ),
{
    let lines = split_lines_spec(content);
    let i = crate::utils::first_nl(content);
    crate::utils::lemma_first_nl_bounds(content);
    assert(content[0] != '\n');
    assert(i >= 1) by {
        crate::utils::lemma_first_nl_bounds(content.skip(1));
        assert(crate::utils::first_nl(content) == 1 + crate::utils::first_nl(content.skip(1)));
    }
    let l0 = lines[0];
    assert(lines.len() > 0 && l0.len() > 0 && l0[0] == content[0]) by {
        if i == content.len() {
            assert(lines == seq![content]);
        } else {
            let head = content.take(i);
            assert(lines == seq![crate::utils::strip_cr(head)] + split_lines_spec(
                content.skip(i + 1),
            ));
            assert(head.len() == i);
            assert(head[0] == content[0]);
            if head[head.len() - 1] == '\r' {
                assert(head.len() >= 2) by {
                    assert(content[0] != '\r');
                }
                assert(crate::utils::strip_cr(head) == head.drop_last());
                assert(head.drop_last()[0] == head[0]);
            }
        }
    }
    let ind = indent_lines(ws, lines);
    let fixed = fixed_output_spec(ws, content);
    assert(ind[0] == ws + l0);
    assert(fixed == ind[0] + seq!['\n'] + nl_terminated(ind.skip(1)));
    assert forall|k: int| 0 <= k < ws.len() implies is_ws_char(fixed[k]) by {
        assert(fixed[k] == ws[k]);
    }
    assert(fixed[ws.len() as int] == l0[0]);
    crate::utils::lemma_ws_prefix_len_is(fixed, ws.len() as int);
}

/// Skip on no formatter, block by block: every planned job's language is
/// configured, so a codeblock of an unconfigured language is never
/// dispatched; and every configured codeblock is planned.
pub proof fn lemma_plan_keeps_configured(bs: Seq<CodeblockV>, langs: Seq<(String, Vec<String>)>)
    ensures
        forall|j: int|
            0 <= j < plan_spec(bs, langs).len() ==> lookup_spec(
                langs,
                (#[trigger] plan_spec(bs, langs)[j]).block.language,
            ) is Some,
        forall|i: int|
            0 <= i < bs.len() && lookup_spec(langs, (#[trigger] bs[i]).language) is Some
                ==> exists|j: int|
                0 <= j < plan_spec(bs, langs).len() && (#[trigger] plan_spec(bs, langs)[j]).block
                    == bs[i],
    decreases bs.len(),
{
    if bs.len() > 0 {
        lemma_plan_keeps_configured(bs.skip(1), langs);
        let planned = plan_spec(bs, langs);
        let rest = plan_spec(bs.skip(1), langs);
        match lookup_spec(langs, bs[0].language) {
            Some(chain) => {
                assert forall|j: int|
                    0 <= j < planned.len() implies lookup_spec(
                    langs,
                    (#[trigger] planned[j]).block.language,
                ) is Some by {
                    if j > 0 {
                        assert(planned[j] == rest[j - 1]);
                    } else {
                        assert(planned[0].block == bs[0]);
                    }
                }
            },
            None => {
                assert(planned == rest);
            },
        }
        assert forall|i: int|
            0 <= i < bs.len() && lookup_spec(langs, (#[trigger] bs[i]).language) is Some
            implies exists|j: int|
            0 <= j < planned.len() && (#[trigger] planned[j]).block == bs[i] by {
            if i == 0 {
                assert(planned[0].block == bs[0]);
            } else {
                assert(bs.skip(1)[i - 1] == bs[i]);
                let j = choose|j: int| 0 <= j < rest.len() && (#[trigger] rest[j]).block == bs[i];
                match lookup_spec(langs, bs[0].language) {
                    Some(chain) => {
                        assert(planned[j + 1] == rest[j]);
                    },
                    None => {
                        assert(planned[j] == rest[j]);
                    },
                }
            }
        }
    }
}

/// `x + 1`, held at the ceiling.
pub open spec fn sat_inc(x: u64) -> u64 {
    if x < u64::MAX {
        (x + 1) as u64
    } else {
        u64::MAX
    }
}

/// The running account of a multi-document invocation.
pub struct Tally {
    pub unchanged: u64,
    pub changed: u64,
    pub errors: u64,
}

impl Tally {
    /// A fresh account.
    pub fn new() -> (t: Tally)
        ensures
            t.unchanged == 0 && t.changed == 0 && t.errors == 0,
    {
        Tally { unchanged: 0, changed: 0, errors: 0 }
    }

    /// Accounts one document's verdict; a count at the ceiling stays there.
    pub fn record(&mut self, r: &FormatResult)
        ensures
            r is Unchanged ==> final(self).unchanged == sat_inc(old(self).unchanged)
                && final(self).changed == old(self).changed
                && final(self).errors == old(self).errors,
            r is Changed ==> final(self).changed == sat_inc(old(self).changed)
                && final(self).unchanged == old(self).unchanged
                && final(self).errors == old(self).errors,
            r is Failed ==> final(self).errors == sat_inc(old(self).errors)
                && final(self).unchanged == old(self).unchanged
                && final(self).changed == old(self).changed,
    {
        match r {
            FormatResult::Unchanged(_) => {
                self.unchanged = self.unchanged.saturating_add(1);
            },
            FormatResult::Changed(_) => {
                self.changed = self.changed.saturating_add(1);
            },
            FormatResult::Failed(_) => {
                self.errors = self.errors.saturating_add(1);
            },
        }
    }

    /// The total of accounted documents, saturating at the ceiling.
    pub fn total(&self) -> (t: u64)
        ensures
            self.unchanged + self.changed + self.errors <= u64::MAX ==> t == self.unchanged
                + self.changed + self.errors,
            self.unchanged + self.changed + self.errors > u64::MAX ==> t == u64::MAX,
    {
        self.unchanged.saturating_add(self.changed).saturating_add(self.errors)
    }

    /// Whether the invocation must end with a failing status: some document
    /// failed, or some document needed changes that were not written back.
    pub fn should_fail(&self, write: bool) -> (b: bool)
        ensures
            b == (self.errors > 0 || (self.changed > 0 && !write)),
    {
        self.errors > 0 || (self.changed > 0 && !write)
    }
}

} // verus!
