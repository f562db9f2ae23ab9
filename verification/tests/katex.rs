use mdzk::katex::{display, fix, render_math, safeclear, Katex, KATEX_CSS, RENDER_SCRIPT};

#[test]
fn inline_math_becomes_a_span() {
    assert_eq!(
        mdzk::katex::inline("Some $x^2$ here"),
        Some("Some <span class=\"katex-inline\">x^2</span> here".to_owned())
    );
    assert_eq!(mdzk::katex::inline("$a$"), Some("<span class=\"katex-inline\">a</span>".to_owned()));
}

#[test]
fn inline_skips_prices_spaces_and_escapes() {
    assert_eq!(mdzk::katex::inline("Costs $5 and $10"), None);
    assert_eq!(mdzk::katex::inline("a $ b $ c"), None);
    assert_eq!(mdzk::katex::inline("a \\$b$ c"), None);
    assert_eq!(mdzk::katex::inline("x $a"), None);
    assert_eq!(mdzk::katex::inline("no dollars"), None);
}

#[test]
fn display_math_becomes_a_span() {
    assert_eq!(display("$$x$$"), Some("<span class=\"katex-display\">x</span>".to_owned()));
    assert_eq!(
        display("a $$x$$ b $$y$$"),
        Some("a <span class=\"katex-display\">x</span> b <span class=\"katex-display\">y</span>".to_owned())
    );
    assert_eq!(display("no math"), None);
}

#[test]
fn paragraph_display_is_a_div() {
    assert_eq!(
        Katex::display("$$x^2$$"),
        Some("<div class=\"katex-display\">x^2</div>".to_owned())
    );
    assert_eq!(Katex::display("$$x"), None);
    assert_eq!(Katex::display("$$$"), None);
}

#[test]
fn fix_doubles_line_breaks() {
    assert_eq!(fix("a \\ b"), "a \\\\ b");
    assert_eq!(fix("a\\b"), "a\\b");
}

#[test]
fn safeclear_keeps_open_math_backwards() {
    let mut buf = "abc".to_owned();
    safeclear(&mut buf);
    assert_eq!(buf, "");
    let mut buf = "x $y".to_owned();
    safeclear(&mut buf);
    assert_eq!(buf, "$ x");
    let mut buf = "$a$ b".to_owned();
    safeclear(&mut buf);
    assert_eq!(buf, "");
}

#[test]
fn render_math_rewrites_and_appends_assets() {
    let out = render_math("Inline $x$ math.");
    assert!(out.starts_with("Inline <span class=\"katex-inline\">x</span> math.\n\n"));
    assert!(out.contains(KATEX_CSS));
    assert!(out.ends_with(RENDER_SCRIPT));
}

#[test]
fn render_math_puts_code_back() {
    let out = render_math("Code `$x$` stays.");
    assert!(out.starts_with("Code `$x$` stays.\n\n"));
}

#[test]
fn katex_chapter_rendering() {
    let k = Katex;
    assert_eq!(k.name(), "katex");
    let out = k.render_chapter("Inline $x$ math.");
    assert!(out.starts_with("Inline <span class=\"katex-inline\">x</span> math.\n\n"));
    let out = k.render_chapter("$$y$$");
    assert!(out.starts_with("<div class=\"katex-display\">y</div>\n\n"));
}
