use kaiseki::{tangle_output, OutputOptions, SourceFile, TangleError};

fn stream(name: &str, lines: &[&str]) -> SourceFile {
    SourceFile {
        name: name.to_string(),
        lines: lines.iter().map(|l| Some(l.to_string())).collect(),
    }
}

fn no_comment() -> OutputOptions {
    OutputOptions { comment: None }
}

#[test]
fn test_test1() {
    let files = vec![
        stream("tests/tangling/test1/000-file1", &["AAA", "##[label(middle)]", "ZZZ"]),
        stream("tests/tangling/test1/001-file2", &["##[after(middle)]", "BBB"]),
    ];

    let (output, errors) = tangle_output(files, no_comment());

    assert_eq!(errors.len(), 0);
    let expected = ["AAA", "BBB", "ZZZ"];
    for (line1, line2) in expected.iter().zip(output) {
        assert_eq!(*line1, &line2 as &str);
    }
}

#[test]
fn test_test2() {
    let files = vec![
        stream("tests/tangling/test2/000-file1", &["start", "##[label(hook)]", "end"]),
        stream("tests/tangling/test2/001-file2", &["##[before(hook)]", "pre"]),
        stream("tests/tangling/test2/002-file3", &["##[after(hook)]", "post"]),
    ];

    let (output, errors) = tangle_output(files, no_comment());

    assert_eq!(errors.len(), 0);
    let expected = ["start", "pre", "post", "end"];
    for (line1, line2) in expected.iter().zip(output) {
        assert_eq!(*line1, &line2 as &str);
    }
}

#[test]
fn test_no_directives_concatenates() {
    let files = vec![
        stream("a", &["one", "two"]),
        stream("b", &["three"]),
        stream("c", &["four", "five"]),
    ];

    let (output, errors) = tangle_output(files, no_comment());

    assert_eq!(errors.len(), 0);
    assert_eq!(output, vec!["one", "two", "three", "four", "five"]);
}

#[test]
fn test_insert_lines_are_transparent() {
    let plain = vec![stream("a", &["one", "two"]), stream("b", &["three"])];
    let with_inserts = vec![
        stream("a", &["##[insert]", "one", "##[insert]", "two"]),
        stream("b", &["three", "##[insert]"]),
    ];

    let (plain_out, plain_errors) = tangle_output(plain, no_comment());
    let (insert_out, insert_errors) = tangle_output(with_inserts, no_comment());

    assert_eq!(plain_errors.len(), 0);
    assert_eq!(insert_errors.len(), 0);
    assert_eq!(plain_out, insert_out);
    assert_eq!(plain_out, vec!["one", "two", "three"]);
}

#[test]
fn test_before_blocks_reverse_order() {
    let files = vec![stream("a", &[
        "base",
        "##[label(Spot)]",
        "tail",
        "##[before(Spot)]",
        "b1",
        "##[before(Spot)]",
        "b2",
        "##[before(Spot)]",
        "b3",
    ])];

    let (output, errors) = tangle_output(files, no_comment());

    assert_eq!(errors.len(), 0);
    assert_eq!(output, vec!["base", "b3", "b2", "b1", "tail"]);
}

#[test]
fn test_after_blocks_keep_order() {
    let files = vec![stream("a", &[
        "base",
        "##[label(Spot)]",
        "tail",
        "##[after(Spot)]",
        "a1",
        "##[after(Spot)]",
        "a2",
        "##[after(Spot)]",
        "a3",
    ])];

    let (output, errors) = tangle_output(files, no_comment());

    assert_eq!(errors.len(), 0);
    assert_eq!(output, vec!["base", "a1", "a2", "a3", "tail"]);
}

#[test]
fn test_missing_tag_routes_as_insert() {
    let files = vec![stream("a", &["x", "##[before(Nope)]", "y"])];

    let (output, errors) = tangle_output(files, no_comment());

    assert_eq!(output, vec!["x", "y"]);
    assert_eq!(errors.len(), 1);
    assert!(matches!(
        &errors[0],
        TangleError::MissingTag { file, lineno, tag }
            if file == "a" && *lineno == 2 && tag == "(Nope)"
    ));
}

#[test]
fn test_duplicate_label_keeps_first_anchor() {
    let files = vec![stream("a", &[
        "##[label(Dup)]",
        "one",
        "##[after(Dup)]",
        "content",
        "##[insert]",
        "##[label(Dup)]",
        "two",
    ])];

    let (output, errors) = tangle_output(files, no_comment());

    assert_eq!(output, vec!["content", "one", "two"]);
    assert_eq!(errors.len(), 1);
    assert!(matches!(
        &errors[0],
        TangleError::DuplicateAnchor { file, lineno, tag }
            if file == "a" && *lineno == 6 && tag == "(Dup)"
    ));
}

#[test]
fn test_nested_anchors_accumulate_indentation() {
    let files = vec![stream("a", &[
        "  ##[label(A)]",
        "##[after(A)]",
        "    ##[label(B)]",
        "##[after(B)]",
        "content",
    ])];

    let (output, errors) = tangle_output(files, no_comment());

    assert_eq!(errors.len(), 0);
    assert_eq!(output, vec!["      content"]);
}

#[test]
fn test_round_trip_two_streams() {
    let files = vec![
        stream("A", &["x", "##[label(Body)]", "y"]),
        stream("B", &["##[before(Body)]", "z", "##[insert]", "w"]),
    ];

    let (output, errors) = tangle_output(files, no_comment());

    assert_eq!(errors.len(), 0);
    assert_eq!(output, vec!["x", "z", "y", "w"]);
}

#[test]
fn test_comment_headers_only_inside_anchors() {
    let files = vec![stream("A", &["root line", "##[label(X)]", "##[after(X)]", "inner"])];
    let options = OutputOptions { comment: Some("//".to_string()) };

    let (output, errors) = tangle_output(files, options);

    assert_eq!(errors.len(), 0);
    assert_eq!(output, vec!["root line", "// 'A', line 4", "inner"]);
}

#[test]
fn test_comment_header_multi_digit_line() {
    let files = vec![stream("F", &[
        "##[label(X)]",
        "l2",
        "l3",
        "l4",
        "l5",
        "l6",
        "l7",
        "l8",
        "l9",
        "##[after(X)]",
        "deep",
    ])];
    let options = OutputOptions { comment: Some(";;".to_string()) };

    let (output, errors) = tangle_output(files, options);

    assert_eq!(errors.len(), 0);
    assert_eq!(
        output,
        vec![";; 'F', line 11", "deep", "l2", "l3", "l4", "l5", "l6", "l7", "l8", "l9"]
    );
}

#[test]
fn test_malformed_anchor_kept_as_text() {
    let files = vec![stream("a", &["x", "// ##[bogus] note", "y"])];

    let (output, errors) = tangle_output(files, no_comment());

    assert_eq!(output, vec!["x", "// ##[bogus] note", "y"]);
    assert_eq!(errors.len(), 1);
    assert!(matches!(
        &errors[0],
        TangleError::MalformedAnchor { file, lineno, anchor }
            if file == "a" && *lineno == 2 && anchor == "##[bogus]"
    ));
}

#[test]
fn test_undecodable_line_dropped() {
    let files = vec![SourceFile {
        name: "bin".to_string(),
        lines: vec![Some("x".to_string()), None, Some("y".to_string())],
    }];

    let (output, errors) = tangle_output(files, no_comment());

    assert_eq!(output, vec!["x", "y"]);
    assert_eq!(errors.len(), 1);
    assert!(matches!(
        &errors[0],
        TangleError::NotUtf8 { file, lineno } if file == "bin" && *lineno == 2
    ));
}

#[test]
fn test_before_directive_indents_with_anchor() {
    let files = vec![stream("a", &["   ##[label(pad)]", "##[before(pad)]", "lead"])];

    let (output, errors) = tangle_output(files, no_comment());

    assert_eq!(errors.len(), 0);
    assert_eq!(output, vec!["   lead"]);
}

#[test]
fn test_default_options_have_no_comment() {
    let options: OutputOptions = Default::default();
    assert!(options.comment.is_none());
}

#[test]
fn test_label_content_line_numbers_in_headers() {
    let files = vec![
        stream("one", &["##[label(slot)]"]),
        stream("two", &["filler", "##[after(slot)]", "payload"]),
    ];
    let options = OutputOptions { comment: Some("#".to_string()) };

    let (output, errors) = tangle_output(files, options);

    assert_eq!(errors.len(), 0);
    assert_eq!(output, vec!["# 'two', line 3", "payload", "filler"]);
}

#[test]
fn test_no_inputs_give_empty_output() {
    let (output, errors) = tangle_output(Vec::new(), no_comment());
    assert!(output.is_empty());
    assert!(errors.is_empty());
}

#[test]
fn test_empty_stream() {
    let files = vec![stream("empty", &[]), stream("rest", &["only"])];

    let (output, errors) = tangle_output(files, no_comment());

    assert_eq!(output, vec!["only"]);
    assert!(errors.is_empty());
}

#[test]
fn test_stream_ending_with_directive() {
    let files = vec![stream("a", &["x", "##[label(end)]"])];

    let (output, errors) = tangle_output(files, no_comment());

    assert_eq!(output, vec!["x"]);
    assert!(errors.is_empty());
}

#[test]
fn test_directive_embedded_in_line_consumes_line() {
    let files = vec![stream("a", &["keep", "code(); // ##[label(X)]", "##[after(X)]", "tail"])];

    let (output, errors) = tangle_output(files, no_comment());

    assert_eq!(errors.len(), 0);
    assert_eq!(output, vec!["keep", "tail"]);
}
