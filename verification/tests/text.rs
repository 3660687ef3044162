use cbfmt::config::Conf;
use cbfmt::format::{stage_commands, FormatError};
use cbfmt::tree::{get_parser_lang_from_filename, handle_directive, DirectiveArg, SrcRange};
use cbfmt::utils::{
    get_hash, get_parser, get_start_whitespace, parse_usize, split_lines, split_whitespace_vec,
    usize_to_string,
};

#[test]
fn hash_is_deterministic_and_discriminates() {
    assert_eq!(get_hash("x = 1\n"), get_hash("x = 1\n"));
    assert_ne!(get_hash("x = 1\n"), get_hash("x = 2\n"));
    assert_ne!(get_hash(""), get_hash(" "));
}

#[test]
fn leading_whitespace_is_extracted() {
    assert_eq!(get_start_whitespace("    x"), "    ");
    assert_eq!(get_start_whitespace("\t x"), "\t ");
    assert_eq!(get_start_whitespace("x  "), "");
    assert_eq!(get_start_whitespace("   "), "   ");
    assert_eq!(get_start_whitespace(""), "");
}

#[test]
fn split_lines_matches_str_lines() {
    for doc in ["", "a", "a\n", "a\nb", "a\r\nb\r\n", "\n\n", "a\rb\n"] {
        let got = split_lines(doc);
        let want: Vec<String> = doc.lines().map(|l| l.to_string()).collect();
        assert_eq!(got, want, "doc {:?}", doc);
    }
}

#[test]
fn split_whitespace_matches_str_split_whitespace() {
    for s in ["", "  ", "black -l 10", "  cmd   arg ", "\tone\ttwo\t"] {
        let got = split_whitespace_vec(s);
        let want: Vec<String> = s.split_whitespace().map(|t| t.to_string()).collect();
        assert_eq!(got, want, "input {:?}", s);
    }
}

#[test]
fn stage_commands_split_and_skip() {
    let chain = vec![
        " black -l 10 ".to_string(),
        "".to_string(),
        "   ".to_string(),
        "isort".to_string(),
    ];
    let cmds = stage_commands(&chain);
    assert_eq!(cmds.len(), 2);
    assert_eq!(cmds[0].program, "black");
    assert_eq!(cmds[0].args, vec!["-l".to_string(), "10".to_string()]);
    assert_eq!(cmds[1].program, "isort");
    assert!(cmds[1].args.is_empty());
}

#[test]
fn numerals_round_trip() {
    assert_eq!(usize_to_string(0), "0");
    assert_eq!(usize_to_string(7), "7");
    assert_eq!(usize_to_string(120), "120");
    assert_eq!(parse_usize("0"), Some(0));
    assert_eq!(parse_usize("42"), Some(42));
    assert_eq!(parse_usize("+42"), Some(42));
    assert_eq!(parse_usize(""), None);
    assert_eq!(parse_usize("+"), None);
    assert_eq!(parse_usize("4a"), None);
    assert_eq!(parse_usize("-4"), None);
    assert_eq!(parse_usize("99999999999999999999999999"), None);
    for n in [1usize, 9, 10, 99, 100, 12345] {
        assert_eq!(parse_usize(&usize_to_string(n)), Some(n));
    }
}

#[test]
fn filename_implies_dialect() {
    assert_eq!(get_parser_lang_from_filename("a.md"), Some("markdown"));
    assert_eq!(get_parser_lang_from_filename("A.MD"), Some("markdown"));
    assert_eq!(get_parser_lang_from_filename("notes.Org"), Some("org"));
    assert_eq!(get_parser_lang_from_filename("doc.rst"), Some("restructuredtext"));
    assert_eq!(get_parser_lang_from_filename("doc.txt"), None);
    assert_eq!(get_parser_lang_from_filename("md"), None);
}

#[test]
fn parser_resolution() {
    assert_eq!(get_parser(None, Some("org")).unwrap(), "org");
    assert_eq!(get_parser(Some("x.md"), None).unwrap(), "markdown");
    assert_eq!(get_parser(Some("x.md"), Some("org")).unwrap(), "org");
    let err = get_parser(Some("x.txt"), None).unwrap_err();
    assert_eq!(err.msg, "Could not infer parser.");
    assert_eq!(err.filename.as_deref(), Some("x.txt"));
    let err2 = get_parser(None, None).unwrap_err();
    assert_eq!(err2.msg, "Could not infer parser.");
    assert!(err2.filename.is_none());
}

#[test]
fn error_message_rendering() {
    let e = FormatError {
        msg: "broken pipe".to_string(),
        filename: Some("a.md".to_string()),
        command: Some("black".to_string()),
        language: Some("python".to_string()),
        start: Some(":3".to_string()),
    };
    assert_eq!(e.to_message(), "a.md:3 [python] -> [black] \nbroken pipe");
    let bare = FormatError {
        msg: "oops".to_string(),
        filename: None,
        command: None,
        language: None,
        start: None,
    };
    assert_eq!(bare.to_message(), "\noops");
}

#[test]
fn config_lookup_first_match() {
    let conf = Conf {
        languages: vec![
            ("python".to_string(), vec!["black".to_string()]),
            ("rust".to_string(), vec!["rustfmt".to_string()]),
        ],
    };
    assert_eq!(conf.lookup("python"), Some(vec!["black".to_string()]));
    assert_eq!(conf.lookup("rust"), Some(vec!["rustfmt".to_string()]));
    assert_eq!(conf.lookup("go"), None);
}

#[test]
fn offset_directive_shifts_ranges() {
    let range = SrcRange {
        start_byte: 10,
        end_byte: 20,
        start_row: 1,
        start_column: 2,
        end_row: 3,
        end_column: 4,
    };
    let args = vec![
        DirectiveArg::Capture(0),
        DirectiveArg::Text("0".to_string()),
        DirectiveArg::Text("0".to_string()),
        DirectiveArg::Text("1".to_string()),
        DirectiveArg::Text("0".to_string()),
    ];
    let out = handle_directive("offset!", &range, &args).expect("known directive");
    assert_eq!(out.start_byte, 10);
    assert_eq!(out.end_byte, 20);
    assert_eq!(out.start_row, 1);
    assert_eq!(out.start_column, 2);
    assert_eq!(out.end_row, 4);
    assert_eq!(out.end_column, 4);
    assert!(handle_directive("other!", &range, &args).is_none());
}
