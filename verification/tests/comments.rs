use codeforge::comments::{
    comment_style_for, comment_style_for_extension, strip_block_only, strip_c_like, strip_comments,
    strip_css, strip_hash_line_comments, strip_whitespace, CommentStyle,
};

#[test]
fn styles_by_extension() {
    for path in ["a.js", "b/c.TSX", "d.rs", "e.h", "f.hpp", "g.kt", "h.swift", "i.cs", "j.go"] {
        assert_eq!(comment_style_for(path), CommentStyle::CLike, "{}", path);
    }
    for path in ["a.css", "b.scss", "c.less"] {
        assert_eq!(comment_style_for(path), CommentStyle::CssBlock, "{}", path);
    }
    for path in ["a.py", "b.sh", "c.bash", "d.rb", "e.yaml", "f.yml", "g.toml"] {
        assert_eq!(comment_style_for(path), CommentStyle::Hash, "{}", path);
    }
    for path in ["a.html", "b.htm", "c.xml", "d.svg"] {
        assert_eq!(comment_style_for(path), CommentStyle::HtmlBlock, "{}", path);
    }
    for path in ["", "a", "a.txt", "js.", "a.js.bak"] {
        assert_eq!(comment_style_for(path), CommentStyle::Unknown, "{}", path);
    }
}

#[test]
fn path_without_a_dot_has_no_extension() {
    for path in ["go", "py", "src/c", "a.b/c"] {
        assert_eq!(comment_style_for(path), CommentStyle::Unknown, "{}", path);
    }
    assert_eq!(comment_style_for(".py"), CommentStyle::Hash);
}

#[test]
fn lower_case_goes_beyond_ascii() {
    // The Kelvin sign is a capital k.
    assert_eq!(comment_style_for("a.\u{212A}t"), CommentStyle::CLike);
    assert_eq!(comment_style_for_extension(&"kt".to_string()), CommentStyle::CLike);
}

#[test]
fn white_space_is_evened_out() {
    assert_eq!(strip_whitespace("  a \t\r\n b\u{a0}\u{2003}c  "), "a b c");
    assert_eq!(strip_whitespace(" \n "), "");
    assert_eq!(strip_whitespace("a\u{200b}b"), "a\u{200b}b");
    let once = strip_whitespace(" x  y ");
    assert_eq!(strip_whitespace(&once), once);
}

#[test]
fn c_comments() {
    assert_eq!(strip_c_like("a; // x\nb"), "a;\nb");
    assert_eq!(strip_c_like("a \t/* x */ b"), "a b");
    assert_eq!(strip_c_like("/* x */\nb"), "b");
    assert_eq!(strip_c_like("x; /* c */\ny;\n"), "x;\ny;\n");
    assert_eq!(strip_c_like("a\n  /* x */\nb"), "a\nb");
    assert_eq!(strip_c_like("a\r\n\t/* x */\r\nb"), "a\r\nb");
    assert_eq!(strip_c_like("a /* x */\r\nb"), "a\r\nb");
    assert_eq!(strip_c_like("/* x */ /* y */\nb"), "b");
    assert_eq!(strip_c_like("a /* x"), "a");
    assert_eq!(strip_c_like("a /*/ x */b"), "ab");
    assert_eq!(strip_c_like("a / b"), "a / b");
}

#[test]
fn c_strings_are_kept() {
    assert_eq!(strip_c_like(r#"f("//", '/*', `#`) // x"#), r#"f("//", '/*', `#`)"#);
    assert_eq!(strip_c_like(r#""a\"// b" // c"#), r#""a\"// b""#);
    assert_eq!(strip_c_like("\"open // x"), "\"open // x");
    assert_eq!(strip_c_like("\"end\\"), "\"end\\");
}

#[test]
fn hash_comments() {
    assert_eq!(strip_hash_line_comments("a = 1 \t# x\nb"), "a = 1\nb");
    assert_eq!(strip_hash_line_comments("# only"), "");
    assert_eq!(strip_hash_line_comments("a = '#' # x"), "a = '#'");
    assert_eq!(strip_hash_line_comments(r##""\"#" # x"##), r##""\"#""##);
}

#[test]
fn block_comments() {
    assert_eq!(strip_block_only("a <!-- x --> b", "<!--", "-->"), "a b");
    assert_eq!(strip_block_only("  <!-- x -->\r\nb", "<!--", "-->"), "b");
    assert_eq!(strip_block_only("a /* x */\nb", "/*", "*/"), "ab");
    assert_eq!(strip_block_only("a /* x", "/*", "*/"), "a");
    assert_eq!(strip_block_only("\"/* x */\"", "/*", "*/"), "\"\"");
}

#[test]
fn style_sheets_keep_their_strings() {
    let text = r#"a{content:"/*x*/"}"#;
    assert_eq!(strip_comments(text, CommentStyle::CssBlock), text);
    assert_eq!(strip_css(r#"a{b:'\'/*'} /* c */"#), r#"a{b:'\'/*'}"#);
    assert_eq!(strip_css("/* a */\nb { } /* c */ d"), "b { } d");
    assert_eq!(strip_css("a /* b */\r\nc // d"), "ac // d");
    assert_eq!(strip_css("a /* b"), "a");
    assert_eq!(strip_css("a / b"), "a / b");
}

#[test]
fn white_space_is_that_of_unicode() {
    for c in ['\u{9}', '\u{d}', ' ', '\u{85}', '\u{a0}', '\u{1680}', '\u{2000}', '\u{200a}',
        '\u{2028}', '\u{2029}', '\u{202f}', '\u{205f}', '\u{3000}'] {
        assert_eq!(strip_whitespace(&format!("a{}b", c)), "a b", "{:?}", c);
    }
    for c in ['\u{8}', '\u{e}', '\u{1f}', '\u{84}', '\u{180e}', '\u{200b}', '\u{2060}', '\u{feff}'] {
        let text = format!("a{}b", c);
        assert_eq!(strip_whitespace(&text), text, "{:?}", c);
    }
    // No other character is white space.
    let count = (0..=0x10ffff).filter_map(char::from_u32).filter(|c| c.is_whitespace()).count();
    assert_eq!(count, 25);
}

#[test]
fn text_without_comments_is_unchanged() {
    let text = "let x = 'a';\n\ty(x) \n";
    for style in [
        CommentStyle::CLike,
        CommentStyle::CssBlock,
        CommentStyle::Hash,
        CommentStyle::HtmlBlock,
        CommentStyle::Unknown,
    ] {
        assert_eq!(strip_comments(text, style), text);
    }
    assert_eq!(strip_comments("a // # /* <!--", CommentStyle::Unknown), "a // # /* <!--");
}
