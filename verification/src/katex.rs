//! Math in notes: `$inline$` and `$$display$$` TeX turned into spans that
//! KaTeX renders in the browser.

use vstd::prelude::*;
use crate::context::opt_view;
use crate::markdown::{MdEvent, MdEventKind, MdTag, markdown_events, markdown_events_of};
use crate::text::{
    byte_range_chars, byte_range_text, chars_eq, chars_of, ends_with, ends_with_chars, extend_chars,
    replace_all, replace_all_chars, replace_first, replace_first_chars, slice_range, split_at_char,
    split_at_str, split_chars, split_str_chars, string_of,
};

verus! {

/// Whether `c` is numeric by `char::is_numeric` (the Unicode general
/// categories Nd, Nl and No).
pub uninterp spec fn char_is_numeric(c: char) -> bool;

/// `char::is_numeric`.  Its contract claims that the result is a function of
/// `c`, and that among the ASCII characters exactly the digits are numeric
/// (they are the only ones of category Nd, Nl or No).
#[verifier::external_body]
fn is_numeric(c: char) -> (b: bool)
    ensures
        b == char_is_numeric(c),
        c <= '\u{7f}' ==> (b <==> '0' <= c <= '9'),
{
    c.is_numeric()
}

/// The markup that opens an inline math span.
pub open spec fn inline_open() -> Seq<char> {
    "<span class=\"katex-inline\">"@
}

/// The markup that opens a display math span.
pub open spec fn display_open() -> Seq<char> {
    "<span class=\"katex-display\">"@
}

/// The markup that closes a math span.
pub open spec fn span_close() -> Seq<char> {
    "</span>"@
}

/// The inline math rewriting of `text`, continued over the `$`-separated
/// `pieces` that follow the first: `out` is the text so far and `escaped`
/// whether the next piece cannot open math.  A piece is math when it is not
/// empty, not escaped, does not start or end with a space, does not start
/// with a numeric character and is not the end of `text`; its first
/// `$piece$` is then replaced by an inline span.
pub open spec fn inline_steps(
    text: Seq<char>,
    pieces: Seq<Seq<char>>,
    out: Seq<char>,
    escaped: bool,
) -> Seq<char>
    decreases pieces.len(),
{
    if pieces.len() == 0 {
        out
    } else {
        let split = pieces[0];
        let rest = pieces.drop_first();
        if split.len() == 0 {
            inline_steps(text, rest, out, true)
        } else if escaped || split[0] == ' ' || split.last() == ' ' || char_is_numeric(split[0]) {
            inline_steps(text, rest, out, split.last() == '\\')
        } else if !ends_with(text, split) {
            inline_steps(
                text,
                rest,
                replace_first(out, seq!['$'] + split + seq!['$'], inline_open() + split + span_close()),
                escaped,
            )
        } else {
            inline_steps(text, rest, out, escaped)
        }
    }
}

/// Whether the next piece cannot open math after the pieces `pieces`, when
/// it could not before them exactly when `escaped`.
pub open spec fn escaped_after(pieces: Seq<Seq<char>>, escaped: bool) -> bool
    decreases pieces.len(),
{
    if pieces.len() == 0 {
        escaped
    } else {
        let split = pieces[0];
        let next = if split.len() == 0 {
            true
        } else if escaped || split[0] == ' ' || split.last() == ' ' || char_is_numeric(split[0]) {
            split.last() == '\\'
        } else {
            escaped
        };
        escaped_after(pieces.drop_first(), next)
    }
}

/// Inline math is rewritten piece after piece, however many pieces there
/// are: the rewriting of the pieces `p1` followed by `p2` is the rewriting
/// of `p2` applied to the text that the rewriting of `p1` leaves, so a math
/// piece is turned into a span whatever pieces came before it.  A piece that
/// is not empty, not escaped, neither starts nor ends with a space, does not
/// start with a numeric character and is not the end of `text` has its first
/// `$piece$` replaced by an inline span; any other piece leaves the text.
pub proof fn law_inline_math_every_piece(
    text: Seq<char>,
    p1: Seq<Seq<char>>,
    p2: Seq<Seq<char>>,
    out: Seq<char>,
    escaped: bool,
)
    ensures
        inline_steps(text, p1 + p2, out, escaped) == inline_steps(
            text,
            p2,
            inline_steps(text, p1, out, escaped),
            escaped_after(p1, escaped),
        ),
        p1.len() == 1 ==> inline_steps(text, p1, out, escaped) == ({
            let x = p1[0];
            if x.len() > 0 && !escaped && x[0] != ' ' && x.last() != ' ' && !char_is_numeric(x[0])
                && !ends_with(text, x) {
                replace_first(out, seq!['$'] + x + seq!['$'], inline_open() + x + span_close())
            } else {
                out
            }
        }),
    decreases p1.len(),
{
    if p1.len() == 0 {
        assert(p1 + p2 =~= p2);
    } else {
        let split = p1[0];
        assert((p1 + p2)[0] == split);
        assert((p1 + p2).drop_first() =~= p1.drop_first() + p2);
        let next_out = if split.len() == 0 {
            out
        } else if escaped || split[0] == ' ' || split.last() == ' ' || char_is_numeric(split[0]) {
            out
        } else if !ends_with(text, split) {
            replace_first(out, seq!['$'] + split + seq!['$'], inline_open() + split + span_close())
        } else {
            out
        };
        let next_esc = if split.len() == 0 {
            true
        } else if escaped || split[0] == ' ' || split.last() == ' ' || char_is_numeric(split[0]) {
            split.last() == '\\'
        } else {
            escaped
        };
        law_inline_math_every_piece(text, p1.drop_first(), p2, next_out, next_esc);
        if p1.len() == 1 {
            assert(p1.drop_first() =~= Seq::<Seq<char>>::empty());
        }
    }
}

/// `text` with its inline math (`$...$`) turned into spans, if it has any.
pub open spec fn spec_inline(text: Seq<char>) -> Option<Seq<char>> {
    let pieces = split_at_char(text, '$');
    let out = inline_steps(text, pieces.drop_first(), text, ends_with(pieces[0], seq!['\\']));
    if out == text {
        None
    } else {
        Some(out)
    }
}

/// The inline math of `text` is found among the pieces between its `$`s:
/// the piece before the first `$` is never math, and it keeps the first
/// piece after it from opening math exactly when it ends with a backslash;
/// each later piece is rewritten as [`law_inline_math_every_piece`] says.
/// The result is none exactly when nothing was rewritten.
pub proof fn law_inline_is_the_rewriting_of_the_pieces(text: Seq<char>)
    ensures
        spec_inline(text) == ({
            let ps = split_at_char(text, '$');
            let r = inline_steps(text, ps.subrange(1, ps.len() as int), text, ends_with(ps[0], seq!['\\']));
            if r == text {
                None::<Seq<char>>
            } else {
                Some(r)
            }
        }),
{
    let ps = split_at_char(text, '$');
    assert(ps.subrange(1, ps.len() as int) =~= ps.drop_first());
}

/// `text` with its inline math (`$...$`) turned into spans; none when it has none.
pub fn inline(text: &str) -> (r: Option<String>)
    ensures
        opt_view(r) == spec_inline(text@),
{
    let t = chars_of(text);
    let pieces = split_chars(&t, '$');
    let ghost ps = pieces@.map_values(|v: Vec<char>| v@);
    let backslash = ['\\'];
    assert(backslash@ =~= seq!['\\']);
    let ghost esc0 = ends_with(ps[0], seq!['\\']);
    let mut escaped = ends_with_chars(&pieces[0], &backslash);
    assert(ps[0] == pieces@[0]@);
    let mut out = slice_range(&t, 0, t.len());
    assert(out@ =~= t@);
    let mut k: usize = 1;
    assert(ps.subrange(1, ps.len() as int) =~= ps.drop_first());
    while k < pieces.len()
        invariant
            1 <= k <= pieces@.len(),
            ps == pieces@.map_values(|v: Vec<char>| v@),
            inline_steps(t@, ps.drop_first(), t@, esc0) == inline_steps(
                t@,
                ps.subrange(k as int, ps.len() as int),
                out@,
                escaped,
            ),
        decreases pieces@.len() - k,
    {
        let split = &pieces[k];
        let ghost rest = ps.subrange(k as int, ps.len() as int);
        assert(rest[0] == split@);
        assert(rest.drop_first() =~= ps.subrange(k + 1, ps.len() as int));
        let n = split.len();
        if n == 0 {
            escaped = true;
        } else if escaped || split[0] == ' ' || split[n - 1] == ' ' || is_numeric(split[0]) {
            escaped = split[n - 1] == '\\';
        } else if !ends_with_chars(&t, split) {
            let mut pat = vec!['$'];
            extend_chars(&mut pat, split);
            pat.push('$');
            let mut rep = chars_of("<span class=\"katex-inline\">");
            extend_chars(&mut rep, split);
            extend_chars(&mut rep, &chars_of("</span>"));
            assert(pat@ =~= seq!['$'] + split@ + seq!['$']);
            assert(rep@ =~= inline_open() + split@ + span_close());
            out = replace_first_chars(&out, &pat, &rep);
        }
        k = k + 1;
    }
    assert(ps.subrange(k as int, ps.len() as int).len() == 0);
    if chars_eq(&out, &t) {
        None
    } else {
        Some(string_of(&out))
    }
}

/// The display math rewriting of the text `out`, continued over the pieces
/// `pieces` (the text split at `$$`) from the `k`th: every second piece is
/// math, and its first `$$piece$$` is replaced by a display span.
pub open spec fn display_from(pieces: Seq<Seq<char>>, k: int, out: Seq<char>) -> Seq<char>
    decreases pieces.len() + 2 - k,
{
    if k < 0 || k >= pieces.len() {
        out
    } else {
        display_from(
            pieces,
            k + 2,
            replace_first(
                out,
                seq!['$', '$'] + pieces[k] + seq!['$', '$'],
                display_open() + pieces[k] + span_close(),
            ),
        )
    }
}

/// `text` with its display math (`$$...$$`) turned into spans, if it has any.
pub open spec fn spec_display(text: Seq<char>) -> Option<Seq<char>> {
    let out = display_from(split_at_str(text, seq!['$', '$']), 1, text);
    if out == text {
        None
    } else {
        Some(out)
    }
}

/// `text` with its display math (`$$...$$`) turned into spans; none when it has none.
pub fn display(text: &str) -> (r: Option<String>)
    ensures
        opt_view(r) == spec_display(text@),
{
    let t = chars_of(text);
    let dd = ['$', '$'];
    assert(dd@ =~= seq!['$', '$']);
    let pieces = split_str_chars(&t, &dd);
    let ghost ps = pieces@.map_values(|v: Vec<char>| v@);
    let mut out = slice_range(&t, 0, t.len());
    assert(out@ =~= t@);
    let mut k: usize = 1;
    while k < pieces.len()
        invariant
            1 <= k,
            ps == pieces@.map_values(|v: Vec<char>| v@),
            display_from(ps, 1, t@) == display_from(ps, k as int, out@),
        decreases pieces@.len() - k,
    {
        let split = &pieces[k];
        assert(ps[k as int] == split@);
        let mut pat = vec!['$', '$'];
        extend_chars(&mut pat, split);
        pat.push('$');
        pat.push('$');
        let mut rep = chars_of("<span class=\"katex-display\">");
        extend_chars(&mut rep, split);
        extend_chars(&mut rep, &chars_of("</span>"));
        assert(pat@ =~= seq!['$', '$'] + split@ + seq!['$', '$']);
        assert(rep@ =~= display_open() + split@ + span_close());
        let ghost old_out = out@;
        out = replace_first_chars(&out, &pat, &rep);
        assert(display_from(ps, k as int, old_out) == display_from(ps, k + 2, out@));
        if k > pieces.len() - 2 {
            assert(display_from(ps, k + 2, out@) == out@);
            k = pieces.len();
        } else {
            k = k + 2;
        }
    }
    if chars_eq(&out, &t) {
        None
    } else {
        Some(string_of(&out))
    }
}

/// `text` with each ` \ ` doubled to ` \\ `, so that a TeX line break survives
/// Markdown.
pub open spec fn spec_fix(text: Seq<char>) -> Seq<char> {
    replace_all(text, seq![' ', '\\', ' '], seq![' ', '\\', '\\', ' '])
}

/// `text` with each ` \ ` doubled to ` \\ `.
pub fn fix(text: &str) -> (r: String)
    ensures
        r@ == spec_fix(text@),
{
    let pat = [' ', '\\', ' '];
    let rep = [' ', '\\', '\\', ' '];
    assert(pat@ =~= seq![' ', '\\', ' ']);
    assert(rep@ =~= seq![' ', '\\', '\\', ' ']);
    string_of(&replace_all_chars(&chars_of(text), &pat, &rep))
}

/// `content` with the first occurrence of `old` replaced by `new`, both fixed.
pub open spec fn replace_fixed(content: Seq<char>, old: Seq<char>, new: Seq<char>) -> Seq<char> {
    replace_first(content, spec_fix(old), spec_fix(new))
}

fn replace_fixed_chars(content: &Vec<char>, old: &[char], new: &[char]) -> (r: Vec<char>)
    ensures
        r@ == replace_fixed(content@, old@, new@),
{
    let o = fix(string_of(old).as_str());
    let n = fix(string_of(new).as_str());
    replace_first_chars(content, &chars_of(o.as_str()), &chars_of(n.as_str()))
}

/// The buffer that `safeclear` leaves, continued from the end of `cache`:
/// characters are read from the end; each `$` flips the parity and restarts
/// the buffer, a `\` takes the character before it along, and while the
/// parity is odd what is read is kept.
pub open spec fn safeclear_from(cache: Seq<char>, buf: Seq<char>, parity: bool) -> Seq<char>
    decreases cache.len(),
{
    if cache.len() == 0 {
        buf
    } else {
        let c = cache.last();
        let rest = cache.drop_last();
        if c == '\\' {
            let buf1 = if !parity {
                buf.push('\\')
            } else {
                buf
            };
            let c2 = if rest.len() > 0 {
                rest.last()
            } else {
                '\\'
            };
            let rest2 = if rest.len() > 0 {
                rest.drop_last()
            } else {
                rest
            };
            safeclear_from(
                rest2,
                if !parity {
                    buf1.push(c2)
                } else {
                    buf1
                },
                parity,
            )
        } else if c == '$' {
            safeclear_from(
                rest,
                if parity {
                    seq!['$']
                } else {
                    Seq::empty()
                },
                !parity,
            )
        } else {
            safeclear_from(
                rest,
                if !parity {
                    buf.push(c)
                } else {
                    buf
                },
                parity,
            )
        }
    }
}

/// What `safeclear` leaves of `buf`: the math left open at its end.
pub open spec fn spec_safeclear(buf: Seq<char>) -> Seq<char> {
    safeclear_from(buf, Seq::empty(), true)
}

/// Clears `buf` but for math that is left open at its end (read backwards).
pub fn safeclear(buf: &mut String)
    ensures
        final(buf)@ == spec_safeclear(old(buf)@),
{
    let mut cache = chars_of(buf.as_str());
    let mut parity = true;
    let mut out: Vec<char> = Vec::new();
    while cache.len() > 0
        invariant
            safeclear_from(cache@, out@, parity) == spec_safeclear(old(buf)@),
        decreases cache@.len(),
    {
        let ghost before = cache@;
        let mut c = cache.pop().unwrap();
        assert(c == before.last() && cache@ == before.drop_last());
        if c == '\\' {
            if !parity {
                out.push(c);
            }
            if cache.len() > 0 {
                let ghost b2 = cache@;
                let d = cache.pop().unwrap();
                assert(d == b2.last() && cache@ == b2.drop_last());
                c = d;
            }
        } else if c == '$' {
            parity = !parity;
            out = Vec::new();
        }
        if !parity {
            out.push(c);
        }
    }
    *buf = string_of(&out);
}

/// The stylesheet of KaTeX.
pub const KATEX_CSS: &'static str = "<link rel=\"stylesheet\" href=\"https://cdn.jsdelivr.net/npm/katex@0.13.18/dist/katex.min.css\" integrity=\"sha384-zTROYFVGOfTw7JV7KUu8udsvW2fx4lWOsCEDqhBreBwlHI4ioVRtmIvEThzJHGET\" crossorigin=\"anonymous\">";

/// The script of KaTeX.
pub const KATEX_JS: &'static str = "<script defer src=\"https://cdn.jsdelivr.net/npm/katex@0.13.20/dist/katex.min.js\" integrity=\"sha384-ov99pRO2tAc0JuxTVzf63RHHeQTJ0CIawbDZFiFTzB07aqFZwEu2pz4uzqL+5OPG\" crossorigin=\"anonymous\"></script>";

/// The script that renders the math spans once the page has loaded.
pub const RENDER_SCRIPT: &'static str = "<script>\ndocument.addEventListener('DOMContentLoaded', function() {\n    var math = document.querySelectorAll(\"[class^=katex]\");\n    for (var i = 0; i < math.length; i++) {\n      // Convert escaped ampersands before rendering\n      var toRender = math[i].textContent.replace(/&amp;/g, '&');\n      katex.render(toRender, math[i]);\n    }\n}, false)\n</script>";

/// What is appended to a page with math: the KaTeX stylesheet, script and renderer.
pub open spec fn katex_assets() -> Seq<char> {
    "\n\n"@ + KATEX_CSS@ + "\n\n"@ + KATEX_JS@ + "\n\n"@ + RENDER_SCRIPT@
}

fn katex_assets_chars() -> (r: Vec<char>)
    ensures
        r@ == katex_assets(),
{
    let mut r = chars_of("\n\n");
    extend_chars(&mut r, &chars_of(KATEX_CSS));
    extend_chars(&mut r, &chars_of("\n\n"));
    extend_chars(&mut r, &chars_of(KATEX_JS));
    extend_chars(&mut r, &chars_of("\n\n"));
    extend_chars(&mut r, &chars_of(RENDER_SCRIPT));
    r
}

/// Whether the event starts a block whose text may hold math.
pub open spec fn starts_math_block(e: MdEvent) -> bool {
    match e.kind {
        MdEventKind::Start(t) => t == MdTag::Paragraph || t == MdTag::Heading || t == MdTag::List
            || t == MdTag::Item || t == MdTag::BlockQuote,
        _ => false,
    }
}

/// The content and buffer after the event `e` of the page whose source is `copy`.
///
/// At the start of a block its source is added to the buffer, whose inline
/// and then display math is rewritten in the content, and the buffer is
/// cleared safely.  Inline code whose text would read as math is put back as
/// it was, and clears the buffer.
pub open spec fn math_step(copy: Seq<char>, content: Seq<char>, buf: Seq<char>, e: MdEvent) -> (
    Seq<char>,
    Seq<char>,
) {
    if starts_math_block(e) {
        let buf1 = match byte_range_text(copy, e.start as int, e.end as int) {
            Some(t) => buf + t,
            None => buf,
        };
        let c2 = match spec_inline(buf1) {
            Some(nb) => replace_fixed(content, buf1, nb),
            None => content,
        };
        let buf2 = match spec_inline(buf1) {
            Some(nb) => nb,
            None => buf1,
        };
        let c3 = match spec_display(buf2) {
            Some(d) => replace_fixed(c2, buf2, d),
            None => c2,
        };
        (c3, spec_safeclear(buf2))
    } else if e.kind is Code {
        let v = e.text@;
        let c2 = match spec_inline(v) {
            Some(i) => replace_fixed(content, i, v),
            None => content,
        };
        let c3 = match spec_display(v) {
            Some(d) => replace_fixed(c2, d, v),
            None => c2,
        };
        (c3, Seq::empty())
    } else {
        (content, buf)
    }
}

/// The content and buffer after the events `events` of the page `copy`.
pub open spec fn math_steps(copy: Seq<char>, events: Seq<MdEvent>) -> (Seq<char>, Seq<char>)
    decreases events.len(),
{
    if events.len() == 0 {
        (copy, Seq::empty())
    } else {
        let (c, b) = math_steps(copy, events.drop_last());
        math_step(copy, c, b, events.last())
    }
}

/// A page with its math turned into KaTeX spans and the KaTeX assets appended.
pub open spec fn spec_render_math(content: Seq<char>) -> Seq<char> {
    math_steps(content, markdown_events_of(content)).0 + katex_assets()
}

fn is_math_block_start(e: &MdEvent) -> (b: bool)
    ensures
        b == starts_math_block(*e),
{
    match &e.kind {
        MdEventKind::Start(t) => match t {
            MdTag::Paragraph | MdTag::Heading | MdTag::List | MdTag::Item | MdTag::BlockQuote => true,
            _ => false,
        },
        _ => false,
    }
}

/// The page `content` with its math turned into KaTeX spans, and the KaTeX
/// stylesheet, script and renderer appended.
pub fn render_math(content: &str) -> (r: String)
    ensures
        r@ == spec_render_math(content@),
{
    let copy = chars_of(content);
    let events = markdown_events(content);
    let mut out = slice_range(&copy, 0, copy.len());
    let mut buf: Vec<char> = Vec::new();
    let mut k: usize = 0;
    assert(out@ =~= copy@);
    assert(events@.subrange(0, 0) =~= Seq::<MdEvent>::empty());
    while k < events.len()
        invariant
            k <= events@.len(),
            copy@ == content@,
            events@ == markdown_events_of(content@),
            (out@, buf@) == math_steps(copy@, events@.subrange(0, k as int)),
        decreases events@.len() - k,
    {
        let e = &events[k];
        proof {
            let pre = events@.subrange(0, k + 1);
            assert(pre.drop_last() =~= events@.subrange(0, k as int));
            assert(pre.last() == events@[k as int]);
        }
        if is_math_block_start(e) {
            let mut buf1 = buf;
            match byte_range_chars(&copy, e.start, e.end) {
                Some(t) => extend_chars(&mut buf1, &t),
                None => {},
            }
            let b1 = string_of(&buf1);
            let buf2 = match inline(b1.as_str()) {
                Some(nb) => {
                    let nbc = chars_of(nb.as_str());
                    out = replace_fixed_chars(&out, &buf1, &nbc);
                    nbc
                },
                None => buf1,
            };
            let b2 = string_of(&buf2);
            match display(b2.as_str()) {
                Some(d) => {
                    out = replace_fixed_chars(&out, &buf2, &chars_of(d.as_str()));
                },
                None => {},
            }
            let mut cleared = b2;
            safeclear(&mut cleared);
            buf = chars_of(cleared.as_str());
        } else {
            match &e.kind {
                MdEventKind::Code => {
                    let v = chars_of(e.text.as_str());
                    match inline(e.text.as_str()) {
                        Some(i) => {
                            out = replace_fixed_chars(&out, &chars_of(i.as_str()), &v);
                        },
                        None => {},
                    }
                    match display(e.text.as_str()) {
                        Some(d) => {
                            out = replace_fixed_chars(&out, &chars_of(d.as_str()), &v);
                        },
                        None => {},
                    }
                    buf = Vec::new();
                },
                _ => {},
            }
        }
        k = k + 1;
    }
    assert(events@.subrange(0, events@.len() as int) =~= events@);
    extend_chars(&mut out, &katex_assets_chars());
    string_of(&out)
}


/// The mdBook preprocessor that renders math with KaTeX.
pub struct Katex;

/// A paragraph that is display math as a whole (`$$...$$`), as a display block.
pub open spec fn spec_display_paragraph(text: Seq<char>) -> Option<Seq<char>> {
    if text.len() >= 4 && text.subrange(0, 2) == seq!['$', '$'] && text.subrange(
        text.len() - 2,
        text.len() as int,
    ) == seq!['$', '$'] {
        Some("<div class=\"katex-display\">"@ + text.subrange(2, text.len() - 2) + "</div>"@)
    } else {
        None
    }
}

/// Whether the tag is a block whose text may hold math.
pub open spec fn is_math_container(t: MdTag) -> bool {
    t == MdTag::Paragraph || t == MdTag::Heading || t == MdTag::List || t == MdTag::Item
        || t == MdTag::Table || t == MdTag::BlockQuote
}

/// The content, buffer and whether math is read, after the event `e`.
///
/// Inside a block the text read (with `*` and `**` for emphasis and strong
/// emphasis) is buffered; as soon as the buffer holds inline math it is
/// rewritten in the content and the buffer restarts.  Inline code restarts the
/// buffer.  At the end of the block the buffer is rewritten as display math
/// when it is that as a whole, or else as inline math.
pub open spec fn chapter_math_step(content: Seq<char>, buf: Seq<char>, rm: bool, e: MdEvent) -> (
    Seq<char>,
    Seq<char>,
    bool,
) {
    match e.kind {
        MdEventKind::Start(t) => if is_math_container(t) {
            (content, buf, true)
        } else if (t == MdTag::Emphasis || t == MdTag::Strong) && rm {
            (content, buf + if t == MdTag::Emphasis {
                seq!['*']
            } else {
                seq!['*', '*']
            }, rm)
        } else {
            (content, buf, rm)
        },
        MdEventKind::End(t) => if is_math_container(t) {
            let c2 = match spec_display_paragraph(buf) {
                Some(d) => replace_fixed(content, buf, d),
                None => match spec_inline(buf) {
                    Some(i) => replace_fixed(content, buf, i),
                    None => content,
                },
            };
            (c2, Seq::empty(), false)
        } else if (t == MdTag::Emphasis || t == MdTag::Strong) && rm {
            (content, buf + if t == MdTag::Emphasis {
                seq!['*']
            } else {
                seq!['*', '*']
            }, rm)
        } else {
            (content, buf, rm)
        },
        MdEventKind::Text => if rm {
            let b = buf + e.text@;
            match spec_inline(b) {
                Some(nb) => (replace_fixed(content, b, nb), Seq::empty(), rm),
                None => (content, b, rm),
            }
        } else {
            (content, buf, rm)
        },
        MdEventKind::Code => (content, Seq::empty(), rm),
        _ => (content, buf, rm),
    }
}

/// The state after the events `events` of a chapter whose content is `copy`.
pub open spec fn chapter_math_steps(copy: Seq<char>, events: Seq<MdEvent>) -> (
    Seq<char>,
    Seq<char>,
    bool,
)
    decreases events.len(),
{
    if events.len() == 0 {
        (copy, Seq::empty(), false)
    } else {
        let (c, b, rm) = chapter_math_steps(copy, events.drop_last());
        chapter_math_step(c, b, rm, events.last())
    }
}

/// A chapter with its math turned into KaTeX markup and the KaTeX assets appended.
pub open spec fn spec_render_chapter_math(content: Seq<char>) -> Seq<char> {
    chapter_math_steps(content, markdown_events_of(content)).0 + katex_assets()
}

fn is_container(t: &MdTag) -> (b: bool)
    ensures
        b == is_math_container(*t),
{
    match t {
        MdTag::Paragraph | MdTag::Heading | MdTag::List | MdTag::Item | MdTag::Table
        | MdTag::BlockQuote => true,
        _ => false,
    }
}

fn emphasis_marks(t: &MdTag) -> (r: Option<Vec<char>>)
    ensures
        match r {
            Some(m) => (*t == MdTag::Emphasis && m@ == seq!['*']) || (*t == MdTag::Strong && m@
                == seq!['*', '*']),
            None => *t != MdTag::Emphasis && *t != MdTag::Strong,
        },
{
    match t {
        MdTag::Emphasis => Some(vec!['*']),
        MdTag::Strong => Some(vec!['*', '*']),
        _ => None,
    }
}

impl Katex {
    /// The name the preprocessor is known by.
    pub fn name(&self) -> (r: &'static str)
        ensures
            r@ == "katex"@,
    {
        "katex"
    }

    /// `text` as a display math block, when it is `$$...$$` as a whole.
    pub fn display(text: &str) -> (r: Option<String>)
        ensures
            opt_view(r) == spec_display_paragraph(text@),
    {
        let t = chars_of(text);
        let n = t.len();
        if n >= 4 && t[0] == '$' && t[1] == '$' && t[n - 2] == '$' && t[n - 1] == '$' {
            let mut out = chars_of("<div class=\"katex-display\">");
            extend_chars(&mut out, &slice_range(&t, 2, n - 2));
            extend_chars(&mut out, &chars_of("</div>"));
            assert(t@.subrange(0, 2) =~= seq!['$', '$']);
            assert(t@.subrange(n - 2, n as int) =~= seq!['$', '$']);
            Some(string_of(&out))
        } else {
            proof {
                if n >= 4 && t@.subrange(0, 2) == seq!['$', '$'] {
                    assert(t@[0] == t@.subrange(0, 2)[0]);
                    assert(t@[1] == t@.subrange(0, 2)[1]);
                    if t@.subrange(n - 2, n as int) == seq!['$', '$'] {
                        assert(t@[n - 2] == t@.subrange(n - 2, n as int)[0]);
                        assert(t@[n - 1] == t@.subrange(n - 2, n as int)[1]);
                    }
                }
            }
            None
        }
    }

    /// A chapter's content with its math turned into KaTeX markup and the
    /// KaTeX stylesheet, script and renderer appended.
    pub fn render_chapter(&self, content: &str) -> (r: String)
        ensures
            r@ == spec_render_chapter_math(content@),
    {
        let copy = chars_of(content);
        let events = markdown_events(content);
        let mut out = slice_range(&copy, 0, copy.len());
        let mut buf: Vec<char> = Vec::new();
        let mut rm = false;
        let mut k: usize = 0;
        assert(out@ =~= copy@);
        assert(events@.subrange(0, 0) =~= Seq::<MdEvent>::empty());
        while k < events.len()
            invariant
                k <= events@.len(),
                copy@ == content@,
                events@ == markdown_events_of(content@),
                (out@, buf@, rm) == chapter_math_steps(copy@, events@.subrange(0, k as int)),
            decreases events@.len() - k,
        {
            let e = &events[k];
            proof {
                let pre = events@.subrange(0, k + 1);
                assert(pre.drop_last() =~= events@.subrange(0, k as int));
                assert(pre.last() == events@[k as int]);
            }
            match &e.kind {
                MdEventKind::Start(t) => {
                    if is_container(t) {
                        rm = true;
                    } else if rm {
                        match emphasis_marks(t) {
                            Some(m) => extend_chars(&mut buf, &m),
                            None => {},
                        }
                    }
                },
                MdEventKind::End(t) => {
                    if is_container(t) {
                        let b = string_of(&buf);
                        match Katex::display(b.as_str()) {
                            Some(d) => {
                                out = replace_fixed_chars(&out, &buf, &chars_of(d.as_str()));
                            },
                            None => match inline(b.as_str()) {
                                Some(i) => {
                                    out = replace_fixed_chars(&out, &buf, &chars_of(i.as_str()));
                                },
                                None => {},
                            },
                        }
                        buf = Vec::new();
                        rm = false;
                    } else if rm {
                        match emphasis_marks(t) {
                            Some(m) => extend_chars(&mut buf, &m),
                            None => {},
                        }
                    }
                },
                MdEventKind::Text => {
                    if rm {
                        extend_chars(&mut buf, &chars_of(e.text.as_str()));
                        let b = string_of(&buf);
                        match inline(b.as_str()) {
                            Some(nb) => {
                                out = replace_fixed_chars(&out, &buf, &chars_of(nb.as_str()));
                                buf = Vec::new();
                            },
                            None => {},
                        }
                    }
                },
                MdEventKind::Code => {
                    buf = Vec::new();
                },
                _ => {},
            }
            k = k + 1;
        }
        assert(events@.subrange(0, events@.len() as int) =~= events@);
        extend_chars(&mut out, &katex_assets_chars());
        string_of(&out)
    }
}

} // verus!
