use fors::fmt::diff::{diff, TextEdit};
use fors::fmt::doc::{render, Op, FORCE, MARGIN};
use fors::fmt::{check_source, format_range, normalise_newlines, Formatted, Status};

fn apply_from_back(old: &[u8], edits: &[TextEdit]) -> Vec<u8> {
    let mut patched = old.to_vec();
    for e in edits.iter().rev() {
        patched.splice(e.start as usize..e.end as usize, e.new_text.iter().copied());
    }
    patched
}

fn formatted(text: &str, changed: bool) -> Formatted {
    Formatted { text: text.as_bytes().to_vec(), status: Status::Formatted, changed, parse_diagnostics: 0 }
}

#[test]
fn an_empty_op_stream_renders_nothing() {
    assert_eq!(render(&[], b""), b"".to_vec());
}

#[test]
fn a_space_joins_two_slices_and_a_newline_ends_the_output() {
    let src = b"abc def";
    let out = render(&[Op::Src(0, 3), Op::Space, Op::Src(4, 7)], src);
    assert_eq!(out, b"abc def\n".to_vec());
}

#[test]
fn a_group_that_fits_stays_flat() {
    let src = b"f(a, b)";
    let ops = [Op::Src(0, 2), Op::Open, Op::Soft, Op::Src(2, 4), Op::Line, Op::Src(5, 6), Op::Soft, Op::Close, Op::Src(6, 7)];
    assert_eq!(render(&ops, src), b"f(a, b)\n".to_vec());
}

#[test]
fn a_forced_group_breaks_every_line_inside_it() {
    let src = b"f(a, b)";
    let ops = [
        Op::Src(0, 2),
        Op::Open,
        Op::Charge(FORCE),
        Op::Indent,
        Op::Soft,
        Op::Src(2, 4),
        Op::Line,
        Op::Src(5, 6),
        Op::Dedent,
        Op::Soft,
        Op::Close,
        Op::Src(6, 7),
    ];
    assert_eq!(render(&ops, src), b"f(\n    a,\n    b\n)\n".to_vec());
}

#[test]
fn a_line_of_exactly_the_margin_fits_and_one_more_breaks() {
    let word = vec![b'x'; MARGIN - 2];
    let mut src = word.clone();
    src.extend_from_slice(b" y");
    let n = src.len() as u32;
    let w = word.len() as u32;
    let ops = [Op::Open, Op::Src(0, w), Op::Line, Op::Src(w + 1, n), Op::Close];
    let out = render(&ops, &src);
    assert_eq!(out.len(), MARGIN + 1);
    assert!(!out[..MARGIN].contains(&b'\n'));
    src.push(b'z');
    let ops = [Op::Open, Op::Src(0, w), Op::Line, Op::Src(w + 1, n + 1), Op::Close];
    let out = render(&ops, &src);
    assert_eq!(out[MARGIN - 2], b'\n');
}

#[test]
fn tokens_that_would_glue_get_a_space() {
    assert_eq!(render(&[Op::Src(0, 1), Op::Src(1, 2)], b"ab"), b"a b\n".to_vec());
    assert_eq!(render(&[Op::Src(0, 1), Op::Src(1, 2)], b"-="), b"- =\n".to_vec());
    assert_eq!(render(&[Op::Src(0, 1), Op::Src(1, 2)], b"(a"), b"(a\n".to_vec());
    // a digit then `.` glues only when a digit follows
    assert_eq!(render(&[Op::Src(0, 1), Op::Src(1, 3)], b"1.5"), b"1 .5\n".to_vec());
    assert_eq!(render(&[Op::Src(0, 1), Op::Src(1, 4)], b"0..<"), b"0..<\n".to_vec());
}

#[test]
fn blank_and_hard_breaks_and_indentation() {
    let src = b"abc";
    let ops = [Op::Src(0, 1), Op::Indent, Op::Hard, Op::Src(1, 2), Op::Dedent, Op::Blank, Op::Src(2, 3)];
    assert_eq!(render(&ops, src), b"a\n    b\n\nc\n".to_vec());
}

#[test]
fn a_comment_that_starts_a_line_owns_it() {
    let src = b"a// c\nb";
    let ops = [Op::Src(0, 1), Op::Hard, Op::Src(1, 5), Op::Src(6, 7)];
    assert_eq!(render(&ops, src), b"a\n// c\nb\n".to_vec());
}

#[test]
fn a_multiline_slice_resets_the_column() {
    let src = b"/* a\nbb */x";
    let ops = [Op::Src(0, 10), Op::Src(10, 11)];
    assert_eq!(render(&ops, src), b"/* a\nbb */x\n".to_vec());
}

#[test]
fn an_empty_slice_emits_nothing() {
    assert_eq!(render(&[Op::Hard, Op::Src(0, 0)], b"x"), b"".to_vec());
}

#[test]
fn equal_buffers_have_no_edits() {
    assert!(diff(b"a\nb\n", b"a\nb\n").is_empty());
}

#[test]
fn one_changed_line_is_one_edit() {
    let old = b"a\nb\nc\n";
    let new = b"a\nB\nc\n";
    let edits = diff(old, new);
    assert_eq!(edits, vec![TextEdit { start: 2, end: 4, new_text: b"B\n".to_vec() }]);
    assert_eq!(apply_from_back(old, &edits), new.to_vec());
}

#[test]
fn inserted_and_deleted_runs_rebuild_the_new_buffer() {
    let old = b"fn f() {\nlet  x=1 ;\n}\nfn g() {}\n";
    let new = b"fn f() {\n    let x = 1;\n}\n\nfn g() {}\nfn h() {}\n";
    let edits = diff(old, new);
    assert!(edits.len() >= 2);
    for w in edits.windows(2) {
        assert!(w[0].end <= w[1].start);
    }
    assert_eq!(apply_from_back(old, &edits), new.to_vec());
}

#[test]
fn a_missing_final_newline_is_its_own_edit() {
    let old = b"a\nb";
    let new = b"a\nb\n";
    let edits = diff(old, new);
    assert_eq!(edits, vec![TextEdit { start: 2, end: 3, new_text: b"b\n".to_vec() }]);
    assert_eq!(apply_from_back(old, &edits), new.to_vec());
}

#[test]
fn a_check_of_a_canonical_buffer_is_clean() {
    let c = check_source(b"fn f() {}\n", &formatted("fn f() {}\n", false));
    assert!(c.formatted);
    assert_eq!(c.status, Status::Formatted);
    assert!(c.edits.is_empty());
}

#[test]
fn a_check_reports_the_edits_that_format_the_buffer() {
    let src = b"fn f() {\nlet  x=1 ;\n}\n";
    let out = "fn f() {\n    let x = 1;\n}\n";
    let c = check_source(src, &formatted(out, true));
    assert!(!c.formatted);
    assert_eq!(apply_from_back(src, &c.edits), out.as_bytes().to_vec());
}

#[test]
fn range_formatting_keeps_only_the_edits_it_touches() {
    let src = b"a\nX\nb\nY\nc\n";
    let out = "a\nx\nb\ny\nc\n";
    let all = check_source(src, &formatted(out, true)).edits;
    assert_eq!(all.len(), 2);
    let first = format_range(src, &formatted(out, true), 2, 3);
    assert_eq!(first.edits, vec![all[0].clone()]);
    let second = format_range(src, &formatted(out, true), 6, 7);
    assert_eq!(second.edits, vec![all[1].clone()]);
    // an empty span at an edit's start still touches it
    let point = format_range(src, &formatted(out, true), 2, 2);
    assert_eq!(point.edits, vec![all[0].clone()]);
    let none = format_range(src, &formatted(out, true), 0, 1);
    assert!(none.edits.is_empty());
}

#[test]
fn crlf_becomes_lf_and_a_lone_cr_stays() {
    assert_eq!(normalise_newlines(b"a\r\nb\r\n"), b"a\nb\n".to_vec());
    assert_eq!(normalise_newlines(b"a\rb\r"), b"a\rb\r".to_vec());
    assert_eq!(normalise_newlines(b"\r\r\n"), b"\r\n".to_vec());
}

#[test]
fn is_ok_follows_the_status() {
    assert!(formatted("", false).is_ok());
    let f = Formatted { text: Vec::new(), status: Status::ParseFailed, changed: false, parse_diagnostics: 1 };
    assert!(!f.is_ok());
}

#[test]
fn a_changed_line_is_one_edit_over_that_line() {
    let es = fors::fmt::diff::diff(b"a\nb\n", b"a\nc\n");
    assert_eq!(es.len(), 1);
    assert_eq!((es[0].start, es[0].end), (2, 4));
    assert_eq!(es[0].new_text, b"c\n".to_vec());
    assert!(fors::fmt::diff::diff(b"x\n", b"x\n").is_empty());
}
