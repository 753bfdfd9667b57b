use praxis_policy::lexical::{char_offset, is_quote, read_literal, read_whole_literal, skip_literal};

#[test]
fn a_plain_literal_reads_its_content() {
    let lit = read_literal("'abc' rest", 0).expect("a closed literal");
    assert_eq!(lit.value, "abc");
    assert_eq!(lit.end, 5, "just past the closing quote");
}

#[test]
fn the_other_quote_is_content() {
    assert_eq!(read_literal(r#""it's""#, 0).unwrap().value, "it's");
    assert_eq!(
        read_literal(r#"'say "hi"'"#, 0).unwrap().value,
        r#"say "hi""#
    );
}

#[test]
fn each_escape_in_the_set_resolves_to_one_character() {
    for (src, want) in [
        (r"'it\'s'", "it's"),
        (r#""say \"hi\"""#, r#"say "hi""#),
        (r"'c:\\tmp'", r"c:\tmp"),
    ] {
        assert_eq!(read_literal(src, 0).expect("escapes resolve").value, want);
    }
}

#[test]
fn an_escaped_quote_does_not_close_the_literal() {
    let lit = read_literal(r"'a\'b'", 0).expect("the escape protects the quote");
    assert_eq!(lit.value, "a'b");
    assert_eq!(lit.end, 6, "the literal runs to the last quote");
}

#[test]
fn an_unrecognized_escape_names_the_character_and_the_fix() {
    let e = read_literal(r"'x\qy'", 0).expect_err("`\\q` is not an escape");
    assert!(e.msg.contains("`\\q`"), "{}", e.msg);
    assert!(
        e.msg.contains(r"\\"),
        "and says how to write one: {}",
        e.msg
    );
}

#[test]
fn an_unterminated_literal_is_named_as_one() {
    for src in ["'abc", r#""abc"#, r"'abc\"] {
        let e = read_literal(src, 0).expect_err("no closing quote");
        assert!(e.msg.contains("unterminated"), "{}", e.msg);
    }
}

#[test]
fn a_position_is_a_character_offset_not_a_byte_offset() {
    // `café` is five characters and six bytes, so a byte offset would report
    // one past the character a reader counts to.
    let e = read_literal(r"'café\q'", 0).expect_err("bad escape");
    assert_eq!(e.at, 5, "the backslash is the sixth character");
}

#[test]
fn a_multibyte_character_survives_intact() {
    assert_eq!(read_literal("'café'", 0).unwrap().value, "café");
}

#[test]
fn a_whole_literal_must_consume_the_whole_string() {
    assert_eq!(read_whole_literal("'abc'").unwrap().as_deref(), Some("abc"));
    assert_eq!(
        read_whole_literal("  'abc'  ").unwrap().as_deref(),
        Some("abc")
    );
    // The splice the old strip_prefix/strip_suffix pair allowed.
    let e = read_whole_literal(r#""a" == "b""#).expect_err("two literals are not one value");
    assert!(e.msg.contains("trailing text"), "{}", e.msg);
}

#[test]
fn a_bare_word_is_not_a_literal_and_not_an_error() {
    assert_eq!(read_whole_literal("medium").unwrap(), None);
    assert_eq!(read_whole_literal("").unwrap(), None);
}

#[test]
fn skipping_lands_where_reading_does() {
    let src = r"'a\'b' & c";
    assert_eq!(
        skip_literal(src, 0).unwrap(),
        read_literal(src, 0).unwrap().end
    );
}

// ----- Further cases -----

#[test]
fn both_quote_bytes_open_a_literal_and_nothing_else_does() {
    assert!(is_quote(b'"'));
    assert!(is_quote(b'\''));
    assert!(!is_quote(b'`'));
    assert!(!is_quote(b'a'));
    assert!(!is_quote(b'\\'));
}

#[test]
fn a_byte_index_that_holds_no_quote_is_refused_where_it_points() {
    let e = read_literal("ab 'c'", 1).expect_err("`b` is no quote");
    assert_eq!(e.at, 1);
    assert_eq!(e.msg, "expected a quoted literal here");
    // Past the end: reported at the character count.
    let e = read_literal("ab", 2).expect_err("nothing to read");
    assert_eq!(e.at, 2);
    // Inside a multi-byte character: no boundary, so the byte index itself.
    let e = read_literal("é'x'", 1).expect_err("mid-character");
    assert_eq!(e.at, 1);
}

#[test]
fn a_literal_can_open_after_other_text() {
    let lit = read_literal("name == \"bob\" && x", 8).expect("opens at byte 8");
    assert_eq!(lit.value, "bob");
    assert_eq!(lit.end, 13);
    // A multi-byte prefix moves the byte index, not the character count.
    let lit = read_literal("é 'ok'", 3).expect("opens at byte 3");
    assert_eq!(lit.value, "ok");
    assert_eq!(lit.end, 7);
}

#[test]
fn an_unterminated_literal_is_reported_at_its_opening_quote() {
    let e = read_literal("xé 'abc", 4).expect_err("no closing quote");
    assert_eq!(e.at, 3);
    assert_eq!(e.msg, "unterminated string literal");
}

#[test]
fn an_unrecognized_escape_message_is_exact() {
    let e = read_literal(r"'\n'", 0).expect_err("`\\n` is not an escape");
    assert_eq!(e.at, 1);
    assert_eq!(
        e.msg,
        "unrecognized escape `\\n` in a quoted literal; only `\\\\`, `\\'` and `\\\"` are escapes, so write `\\\\` for a literal backslash"
    );
}

#[test]
fn an_escaped_multibyte_character_is_named_as_itself() {
    let e = read_literal("'\\é'", 0).expect_err("`\\é` is not an escape");
    assert_eq!(e.at, 1);
    assert!(e.msg.contains("`\\é`"), "{}", e.msg);
}

#[test]
fn a_quoted_text_framed_by_white_space_is_one_whole_literal() {
    assert_eq!(
        read_whole_literal(" \t'a \\' b'\n ").unwrap().as_deref(),
        Some("a ' b")
    );
}

#[test]
fn an_empty_literal_reads_as_empty() {
    let lit = read_literal("''", 0).unwrap();
    assert_eq!(lit.value, "");
    assert_eq!(lit.end, 2);
}

#[test]
fn skipping_reports_the_same_error_as_reading() {
    let src = "'abc";
    assert_eq!(skip_literal(src, 0).unwrap_err(), read_literal(src, 0).unwrap_err());
}

#[test]
fn char_offsets_count_characters() {
    assert_eq!(char_offset("café!", 0), 0);
    assert_eq!(char_offset("café!", 3), 3);
    assert_eq!(char_offset("café!", 5), 4);
    assert_eq!(char_offset("café!", 6), 5);
    // Mid-character and past-the-end indices are returned as they are.
    assert_eq!(char_offset("café!", 4), 4);
    assert_eq!(char_offset("café!", 9), 9);
}

#[test]
fn whole_literal_errors_are_offsets_into_the_untrimmed_text() {
    let e = read_whole_literal("  'ab\\q'").expect_err("bad escape");
    assert_eq!(e.at, 5);
    let e = read_whole_literal("  'ab").expect_err("unterminated");
    assert_eq!(e.at, 2);
    assert_eq!(e.msg, "unterminated string literal");
    let e = read_whole_literal(" 'a' b").expect_err("trailing text");
    assert_eq!(e.at, 4);
    assert_eq!(
        e.msg,
        "trailing text after a quoted literal; a value is one literal or one bare word"
    );
}

#[test]
fn trimming_follows_unicode_white_space() {
    // NO-BREAK SPACE and IDEOGRAPHIC SPACE are white space; they are trimmed.
    assert_eq!(
        read_whole_literal("\u{a0}'x'\u{3000}").unwrap().as_deref(),
        Some("x")
    );
    // A trailing backslash before trimmed white space is cut off by the trim,
    // so the literal is unterminated rather than a bad escape.
    let e = read_whole_literal("'x\\ ").expect_err("unterminated");
    assert_eq!(e.msg, "unterminated string literal");
    assert!(read_whole_literal("   ").unwrap().is_none());
}

#[test]
fn a_quoted_text_reads_back_as_written() {
    for (src, want) in [
        (r#"'it\'s a "test" \\ ok'"#, r#"it's a "test" \ ok"#),
        (r#""it's a \"test\" \\ ok""#, r#"it's a "test" \ ok"#),
    ] {
        let lit = read_literal(src, 0).unwrap();
        assert_eq!(lit.value, want);
        assert_eq!(lit.end, src.len());
        assert_eq!(read_whole_literal(src).unwrap().as_deref(), Some(want));
    }
}

#[test]
fn what_follows_a_closed_literal_changes_nothing() {
    let a = read_literal("'ab\\'c'", 0).unwrap();
    let b = read_literal("'ab\\'c' and then 'more'", 0).unwrap();
    assert_eq!(a, b);
}
