use log_viewer::render::{next_block, print_line, tint_of, Block, Style, Tint};

fn block(len: usize, style: Style) -> Block {
    Block { len, style }
}

#[test]
fn line_with_two_severity_tags() {
    let blocks = print_line(b"hello [info] world [ERROR] done");
    assert_eq!(
        blocks,
        vec![
            block(6, Style::Plain),
            block(6, Style::Info),
            block(7, Style::Plain),
            block(7, Style::Error),
            block(5, Style::Plain),
        ]
    );
    let tints: Vec<Option<Tint>> = blocks.iter().map(|b| tint_of(b.style)).collect();
    assert_eq!(
        tints,
        vec![None, Some(Tint::DarkGreen), None, Some(Tint::Red), None]
    );
}

#[test]
fn severity_words_in_any_case() {
    let cases: Vec<(&[u8], Style, Tint)> = vec![
        (b"[debug]", Style::Debug, Tint::Blue),
        (b"[DEBUG]", Style::Debug, Tint::Blue),
        (b"[DeBuG]", Style::Debug, Tint::Blue),
        (b"[info]", Style::Info, Tint::DarkGreen),
        (b"[Info]", Style::Info, Tint::DarkGreen),
        (b"[warn]", Style::Warn, Tint::Yellow),
        (b"[wARN]", Style::Warn, Tint::Yellow),
        (b"[error]", Style::Error, Tint::Red),
        (b"[ERRor]", Style::Error, Tint::Red),
    ];
    for (text, style, tint) in cases {
        let b = next_block(text, 0);
        assert_eq!(b, block(text.len(), style));
        assert_eq!(tint_of(b.style), Some(tint));
    }
}

#[test]
fn other_bracketed_words_are_unclassified() {
    for text in [&b"[trace]"[..], b"[]", b"[ info]", b"[infos]", b"[warning]"] {
        let b = next_block(text, 0);
        assert_eq!(b, block(text.len(), Style::Unclassified));
        assert_eq!(tint_of(b.style), Some(Tint::DarkGrey));
    }
}

#[test]
fn nested_brackets_make_one_token() {
    let line = b"[outer[inner]outer] tail";
    assert_eq!(next_block(line, 0), block(19, Style::Unclassified));
    assert_eq!(
        print_line(line),
        vec![block(19, Style::Unclassified), block(5, Style::Plain)]
    );
}

#[test]
fn nested_severity_word_is_not_a_severity_tag() {
    assert_eq!(
        print_line(b"[[info]]x"),
        vec![block(8, Style::Unclassified), block(1, Style::Plain)]
    );
}

#[test]
fn unbalanced_bracket_runs_to_end_of_line() {
    let line = b"start [info more [warn] text";
    assert_eq!(
        print_line(line),
        vec![block(6, Style::Plain), block(22, Style::Unclassified)]
    );
    assert_eq!(next_block(b"[error", 0), block(6, Style::Unclassified));
}

#[test]
fn stray_closing_bracket_is_plain_text() {
    assert_eq!(
        print_line(b"a] b [warn]"),
        vec![block(5, Style::Plain), block(6, Style::Warn)]
    );
}

#[test]
fn next_block_from_an_offset() {
    let line = b"xx[warn]yy";
    assert_eq!(next_block(line, 0), block(2, Style::Plain));
    assert_eq!(next_block(line, 2), block(6, Style::Warn));
    assert_eq!(next_block(line, 8), block(2, Style::Plain));
    assert_eq!(next_block(line, 10), block(0, Style::Plain));
}

#[test]
fn empty_and_plain_lines() {
    assert_eq!(print_line(b""), vec![]);
    assert_eq!(print_line(b"just text\n"), vec![block(10, Style::Plain)]);
    assert_eq!(tint_of(Style::Plain), None);
}

#[test]
fn line_with_its_newline_keeps_it_in_the_last_block() {
    assert_eq!(
        print_line(b"[debug] ok\n"),
        vec![block(7, Style::Debug), block(4, Style::Plain)]
    );
}
