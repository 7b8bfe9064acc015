//! Rich text: HTML-like markup parsed into styled spans.
//!
//! Markup tags are `<color=..>`, `<size=..>`, `<font=..>`, `<bold>`/`<b>`,
//! `<italic>`/`<i>`, `<underline>`/`<u>` and `<span ..>` with attributes;
//! tag names are case-insensitive. Opening a tag pushes a style derived from
//! the current one; any closing tag pops the innermost style (never the base
//! one). Text between tags becomes a span with the current style.
//!
//! A style here records what the markup set: the colour as RGBA bytes (none
//! when the markup kept the base colour), the list of size attributes applied
//! from the outside in (the renderer uses the last one that reads as a
//! number, else the base size), the font family and the three flags.
use vstd::prelude::*;
use crate::text_util::{
    all_ascii,
    ascii_lower,
    char_alphanumeric,
    char_whitespace,
    chars_are,
    chars_equal,
    chars_to_string,
    is_alphanumeric,
    is_whitespace,
    str_lowercase,
    str_to_chars,
    to_lowercase,
};

verus! {

/// Style of a span as set by markup.
#[derive(Debug)]
pub struct TextStyle {
    /// Colour set by markup, as RGBA bytes; `None` keeps the base colour.
    pub color: Option<(u8, u8, u8, u8)>,
    /// Size attributes applied, outermost first.
    pub font_sizes: Vec<String>,
    /// Font family.
    pub font_family: Option<String>,
    pub bold: bool,
    pub italic: bool,
    pub underline: bool,
}

impl Default for TextStyle {
    /// A style with nothing set by markup.
    fn default() -> (s: Self)
        ensures
            s.color.is_none(),
            s.font_sizes@.len() == 0,
            s.font_family.is_none(),
            !s.bold,
            !s.italic,
            !s.underline,
    {
        TextStyle {
            color: None,
            font_sizes: Vec::new(),
            font_family: None,
            bold: false,
            italic: false,
            underline: false,
        }
    }
}

/// The mathematical value of a [`TextStyle`].
pub struct StyleView {
    pub color: Option<(u8, u8, u8, u8)>,
    pub sizes: Seq<Seq<char>>,
    pub font: Option<Seq<char>>,
    pub bold: bool,
    pub italic: bool,
    pub underline: bool,
}

pub open spec fn opt_string_view(o: Option<String>) -> Option<Seq<char>> {
    match o {
        Some(s) => Some(s@),
        None => None,
    }
}

impl View for TextStyle {
    type V = StyleView;

    open spec fn view(&self) -> StyleView {
        StyleView {
            color: self.color,
            sizes: self.font_sizes@.map_values(|s: String| s@),
            font: opt_string_view(self.font_family),
            bold: self.bold,
            italic: self.italic,
            underline: self.underline,
        }
    }
}

/// A run of text with one style.
#[derive(Debug)]
pub struct TextSpan {
    pub text: String,
    pub style: TextStyle,
}

/// Text split into styled spans.
#[derive(Debug)]
pub struct RichText {
    pub spans: Vec<TextSpan>,
    /// The text had no markup and is one span in the base style.
    pub is_plain: bool,
}

/// A span as text and style values.
pub type SpanView = (Seq<char>, StyleView);

pub open spec fn spans_view(spans: Seq<TextSpan>) -> Seq<SpanView> {
    spans.map_values(|sp: TextSpan| (sp.text@, sp.style@))
}

/// Why markup could not be parsed.
#[derive(Debug, Clone, Copy, PartialEq, Eq)]
pub enum MarkupError {
    /// A tag or attribute name was expected.
    ExpectedIdentifier,
    /// A quoted attribute value has no closing quote.
    UnterminatedString,
    /// The given character was expected (the `>` closing a tag).
    Expected(char),
    /// The tag name is not one of the known tags.
    UnknownTag,
}

/// The kinds of tags.
#[derive(Debug, Clone, Copy, PartialEq, Eq)]
pub enum TagKind {
    Color,
    Size,
    Font,
    Bold,
    Italic,
    Underline,
    Span,
}

/// A parsed tag.
pub enum Tag {
    Open(TagKind, Vec<(Vec<char>, Vec<char>)>),
    Close(TagKind),
}

pub type AttrsView = Seq<(Seq<char>, Seq<char>)>;

pub ghost enum TagView {
    Open(TagKind, AttrsView),
    Close(TagKind),
}

pub open spec fn attrs_view(a: Seq<(Vec<char>, Vec<char>)>) -> AttrsView {
    a.map_values(|p: (Vec<char>, Vec<char>)| (p.0@, p.1@))
}

pub open spec fn tag_view(t: Tag) -> TagView {
    match t {
        Tag::Open(k, a) => TagView::Open(k, attrs_view(a@)),
        Tag::Close(k) => TagView::Close(k),
    }
}

// ---------------------------------------------------------------------------
// Hex colours
// ---------------------------------------------------------------------------

/// Which channel of a hex colour was malformed.
#[derive(Debug, Clone, Copy, PartialEq, Eq)]
pub enum Channel {
    Red,
    Green,
    Blue,
    Alpha,
}

/// Why a hex colour could not be read.
#[derive(Debug, Clone, Copy, PartialEq, Eq)]
pub enum ColorError {
    /// Not 6 or 8 bytes after the leading `#`s.
    InvalidLength,
    /// The two digits of this channel are not a hexadecimal byte.
    InvalidComponent(Channel),
}

/// Outcome of reading a hex colour: its bytes, an error, or a byte offset
/// that splits a character (where slicing the string would abort).
#[derive(Debug, Clone, Copy, PartialEq, Eq)]
pub enum HexOutcome {
    Rgba(u8, u8, u8, u8),
    Invalid(ColorError),
    SplitsChar,
}

pub open spec fn strip_hashes(v: Seq<char>) -> Seq<char>
    decreases v.len(),
{
    if v.len() > 0 && v[0] == '#' {
        strip_hashes(v.drop_first())
    } else {
        v
    }
}

/// Number of UTF-8 bytes encoding `c`.
pub open spec fn utf8_len(c: char) -> int {
    if (c as u32) < 0x80 {
        1
    } else if (c as u32) < 0x800 {
        2
    } else if (c as u32) < 0x10000 {
        3
    } else {
        4
    }
}

pub open spec fn byte_len(t: Seq<char>) -> int
    decreases t.len(),
{
    if t.len() == 0 {
        0
    } else {
        byte_len(t.drop_last()) + utf8_len(t.last())
    }
}

/// Index of the character starting at byte `b`, scanning from character `i`
/// at byte `acc`; `None` when `b` falls inside a character or past the end.
pub open spec fn char_at_byte(t: Seq<char>, i: int, acc: int, b: int) -> Option<int>
    decreases t.len() - i,
{
    if acc == b {
        Some(i)
    } else if acc > b || i < 0 || i >= t.len() {
        None
    } else {
        char_at_byte(t, i + 1, acc + utf8_len(t[i]), b)
    }
}

pub open spec fn hex_digit_value(c: char) -> Option<int> {
    if '0' <= c && c <= '9' {
        Some(c as int - '0' as int)
    } else if 'a' <= c && c <= 'f' {
        Some(c as int - 'a' as int + 10)
    } else if 'A' <= c && c <= 'F' {
        Some(c as int - 'A' as int + 10)
    } else {
        None
    }
}

/// A hexadecimal digit: `0`-`9`, `a`-`f` or `A`-`F`.
pub open spec fn is_hex_char(c: char) -> bool {
    ('0' <= c && c <= '9') || ('a' <= c && c <= 'f') || ('A' <= c && c <= 'F')
}

/// Hexadecimal digits are read alike in either case: a character and its
/// lower-case form have the same value; exactly the hexadecimal digits have
/// one, and it is below 16.
pub proof fn lemma_hex_digit_either_case(c: char)
    ensures
        hex_digit_value(ascii_lower(c)) == hex_digit_value(c),
        hex_digit_value(c) is Some <==> is_hex_char(c),
        hex_digit_value(c) matches Some(d) ==> 0 <= d < 16,
{
    if 'A' <= c && c <= 'Z' {
        assert(ascii_lower(c) as int == c as int + 32);
    }
}

/// Value of a two-character hexadecimal byte (an optional `+` sign may take
/// the place of the first digit).
pub open spec fn hex_byte(p: Seq<char>) -> Option<u8> {
    if p.len() != 2 {
        None
    } else {
        match hex_digit_value(p[1]) {
            None => None,
            Some(lo) => if p[0] == '+' {
                Some(lo as u8)
            } else {
                match hex_digit_value(p[0]) {
                    None => None,
                    Some(hi) => Some((hi * 16 + lo) as u8),
                }
            },
        }
    }
}

pub open spec fn channel_of(k: int) -> Channel {
    if k == 0 {
        Channel::Red
    } else if k == 1 {
        Channel::Green
    } else if k == 2 {
        Channel::Blue
    } else {
        Channel::Alpha
    }
}

/// Channel `k` of the stripped colour `t`: its byte, or why it failed.
pub open spec fn hex_channel(t: Seq<char>, k: int) -> Result<u8, HexOutcome> {
    match (char_at_byte(t, 0, 0, 2 * k), char_at_byte(t, 0, 0, 2 * k + 2)) {
        (Some(a), Some(z)) => match hex_byte(t.subrange(a, z)) {
            Some(v) => Ok(v),
            None => Err(HexOutcome::Invalid(ColorError::InvalidComponent(channel_of(k)))),
        },
        _ => Err(HexOutcome::SplitsChar),
    }
}

/// Reads `#RRGGBB` or `#RRGGBBAA` (any number of leading `#`, digits in
/// either case); alpha is 255 when absent.
pub open spec fn hex_color(v: Seq<char>) -> HexOutcome {
    let t = strip_hashes(v);
    let bl = byte_len(t);
    if bl != 6 && bl != 8 {
        HexOutcome::Invalid(ColorError::InvalidLength)
    } else {
        match hex_channel(t, 0) {
            Err(o) => o,
            Ok(r) => match hex_channel(t, 1) {
                Err(o) => o,
                Ok(g) => match hex_channel(t, 2) {
                    Err(o) => o,
                    Ok(b) => if bl == 6 {
                        HexOutcome::Rgba(r, g, b, 255)
                    } else {
                        match hex_channel(t, 3) {
                            Err(o) => o,
                            Ok(a) => HexOutcome::Rgba(r, g, b, a),
                        }
                    },
                },
            },
        }
    }
}

// ---------------------------------------------------------------------------
// The markup grammar
// ---------------------------------------------------------------------------

pub open spec fn ident_char(c: char) -> bool {
    char_alphanumeric(c) || c == '_' || c == '-'
}

/// End of the run of identifier characters starting at `pos`.
pub open spec fn ident_end(s: Seq<char>, pos: int) -> int
    decreases s.len() - pos,
{
    if 0 <= pos < s.len() && ident_char(s[pos]) {
        ident_end(s, pos + 1)
    } else {
        pos
    }
}

/// End of the run of white space starting at `pos`.
pub open spec fn ws_end(s: Seq<char>, pos: int) -> int
    decreases s.len() - pos,
{
    if 0 <= pos < s.len() && char_whitespace(s[pos]) {
        ws_end(s, pos + 1)
    } else {
        pos
    }
}

/// First position at or after `pos` holding `q`, or the end.
pub open spec fn quote_end(s: Seq<char>, pos: int, q: char) -> int
    decreases s.len() - pos,
{
    if 0 <= pos < s.len() && s[pos] != q {
        quote_end(s, pos + 1, q)
    } else {
        pos
    }
}

/// End of an unquoted value: white space, `>` or the end.
pub open spec fn unquoted_end(s: Seq<char>, pos: int) -> int
    decreases s.len() - pos,
{
    if 0 <= pos < s.len() && !char_whitespace(s[pos]) && s[pos] != '>' {
        unquoted_end(s, pos + 1)
    } else {
        pos
    }
}

/// An attribute value at `pos` and the position after it: quoted with `"`
/// or `'`, or unquoted; `None` when a quote is not closed.
pub open spec fn attr_value(s: Seq<char>, pos: int) -> Option<(Seq<char>, int)> {
    if 0 <= pos < s.len() && (s[pos] == '"' || s[pos] == '\'') {
        let e = quote_end(s, pos + 1, s[pos]);
        if e >= s.len() {
            None
        } else {
            Some((s.subrange(pos + 1, e), e + 1))
        }
    } else {
        let e = unquoted_end(s, pos);
        Some((s.subrange(pos, e), e))
    }
}

pub proof fn lemma_ends(s: Seq<char>, pos: int, q: char)
    requires
        0 <= pos,
    ensures
        pos <= ident_end(s, pos),
        pos <= ws_end(s, pos),
        pos <= quote_end(s, pos, q),
        pos <= unquoted_end(s, pos),
        pos <= s.len() ==> ident_end(s, pos) <= s.len() && ws_end(s, pos) <= s.len()
            && quote_end(s, pos, q) <= s.len() && unquoted_end(s, pos) <= s.len(),
    decreases s.len() - pos,
{
    if pos < s.len() {
        lemma_ends(s, pos + 1, q);
    }
}

/// Attributes after a tag name, from `pos` up to `>` or `/`: `key`,
/// `key=value` (white space allowed around `=`), separated by white space.
pub open spec fn attr_loop(s: Seq<char>, pos: int, attrs: AttrsView) -> Result<
    (AttrsView, int),
    MarkupError,
>
    decreases s.len() - pos,
{
    if pos < 0 || pos > s.len() {
        Err(MarkupError::ExpectedIdentifier)
    } else if pos < s.len() && (s[pos] == '>' || s[pos] == '/') {
        Ok((attrs, pos))
    } else {
        let ke = ident_end(s, pos);
        if ke == pos {
            Err(MarkupError::ExpectedIdentifier)
        } else {
            proof {
                lemma_ends(s, pos, '"');
                lemma_ends(s, ke, '"');
            }
            let key = s.subrange(pos, ke);
            let p = ws_end(s, ke);
            if p < s.len() && s[p] == '=' {
                proof {
                    lemma_ends(s, p + 1, '"');
                }
                let p2 = ws_end(s, p + 1);
                match attr_value(s, p2) {
                    None => Err(MarkupError::UnterminatedString),
                    Some((v, p3)) => {
                        proof {
                            lemma_ends(s, p2, s[p2]);
                            lemma_ends(s, p2 + 1, s[p2]);
                            lemma_ends(s, p3, '"');
                        }
                        attr_loop(s, ws_end(s, p3), attrs.push((key, v)))
                    },
                }
            } else {
                proof {
                    lemma_ends(s, p, '"');
                }
                attr_loop(s, ws_end(s, p), attrs.push((key, "true"@)))
            }
        }
    }
}

/// What follows the name of an opening tag: an optional `=value` naming
/// the tag itself, then attributes.
pub open spec fn tag_content(s: Seq<char>, pos: int, name: Seq<char>) -> Result<
    (AttrsView, int),
    MarkupError,
> {
    let p1 = ws_end(s, pos);
    if 0 <= p1 < s.len() && s[p1] == '=' {
        match attr_value(s, p1 + 1) {
            None => Err(MarkupError::UnterminatedString),
            Some((v, p2)) => attr_loop(s, ws_end(s, p2), seq![(name, v)]),
        }
    } else {
        attr_loop(s, p1, Seq::empty())
    }
}

/// The tag named `name` (case-insensitively).
pub open spec fn tag_kind(name: Seq<char>) -> Option<TagKind> {
    let l = str_lowercase(name);
    if l == "color"@ {
        Some(TagKind::Color)
    } else if l == "size"@ {
        Some(TagKind::Size)
    } else if l == "font"@ {
        Some(TagKind::Font)
    } else if l == "bold"@ || l == "b"@ {
        Some(TagKind::Bold)
    } else if l == "italic"@ || l == "i"@ {
        Some(TagKind::Italic)
    } else if l == "underline"@ || l == "u"@ {
        Some(TagKind::Underline)
    } else if l == "span"@ {
        Some(TagKind::Span)
    } else {
        None
    }
}

/// The tag starting with the `<` at `pos`, and the position after its `>`.
pub open spec fn tag_at(s: Seq<char>, pos: int) -> Result<(TagView, int), MarkupError> {
    let p0 = pos + 1;
    let closing = 0 <= p0 < s.len() && s[p0] == '/';
    let p = if closing {
        p0 + 1
    } else {
        p0
    };
    let ne = ident_end(s, p);
    if ne == p {
        Err(MarkupError::ExpectedIdentifier)
    } else {
        let name = s.subrange(p, ne);
        let content: Result<(AttrsView, int), MarkupError> = if closing {
            Ok((Seq::empty(), ne))
        } else {
            tag_content(s, ne, name)
        };
        match content {
            Err(e) => Err(e),
            Ok((attrs, q)) => if !(0 <= q < s.len() && s[q] == '>') {
                Err(MarkupError::Expected('>'))
            } else {
                match tag_kind(name) {
                    None => Err(MarkupError::UnknownTag),
                    Some(k) => Ok(
                        (
                            if closing {
                                TagView::Close(k)
                            } else {
                                TagView::Open(k, attrs)
                            },
                            q + 1,
                        ),
                    ),
                }
            },
        }
    }
}

/// The value last given to attribute `key`.
pub open spec fn lookup(attrs: AttrsView, key: Seq<char>) -> Option<Seq<char>>
    decreases attrs.len(),
{
    if attrs.len() == 0 {
        None
    } else if attrs.last().0 == key {
        Some(attrs.last().1)
    } else {
        lookup(attrs.drop_last(), key)
    }
}

pub open spec fn lookup_either(attrs: AttrsView, k1: Seq<char>, k2: Seq<char>) -> Option<
    Seq<char>,
> {
    match lookup(attrs, k1) {
        Some(v) => Some(v),
        None => lookup(attrs, k2),
    }
}

/// Style after applying an optional colour value; `None` when reading the
/// colour would split a character.
pub open spec fn with_color(st: StyleView, v: Option<Seq<char>>) -> Option<StyleView> {
    match v {
        None => Some(st),
        Some(c) => match hex_color(c) {
            HexOutcome::Rgba(r, g, b, a) => Some(StyleView { color: Some((r, g, b, a)), ..st }),
            HexOutcome::Invalid(_) => Some(st),
            HexOutcome::SplitsChar => None,
        },
    }
}

pub open spec fn with_size(st: StyleView, v: Option<Seq<char>>) -> StyleView {
    match v {
        None => st,
        Some(z) => StyleView { sizes: st.sizes.push(z), ..st },
    }
}

pub open spec fn with_font(st: StyleView, v: Option<Seq<char>>) -> StyleView {
    match v {
        None => st,
        Some(f) => StyleView { font: Some(f), ..st },
    }
}

/// The style an opening tag derives from the current one.
pub open spec fn apply_tag(st: StyleView, k: TagKind, attrs: AttrsView) -> Option<StyleView> {
    match k {
        TagKind::Color => with_color(st, lookup_either(attrs, "color"@, "c"@)),
        TagKind::Size => Some(with_size(st, lookup_either(attrs, "size"@, "s"@))),
        TagKind::Font => Some(with_font(st, lookup_either(attrs, "font"@, "f"@))),
        TagKind::Bold => Some(StyleView { bold: true, ..st }),
        TagKind::Italic => Some(StyleView { italic: true, ..st }),
        TagKind::Underline => Some(StyleView { underline: true, ..st }),
        TagKind::Span => match with_color(st, lookup(attrs, "color"@)) {
            None => None,
            Some(st1) => {
                let st2 = with_font(with_size(st1, lookup(attrs, "size"@)), lookup(attrs, "font"@));
                Some(
                    StyleView {
                        bold: st2.bold || lookup(attrs, "bold"@) is Some,
                        italic: st2.italic || lookup(attrs, "italic"@) is Some,
                        underline: st2.underline || lookup(attrs, "underline"@) is Some,
                        ..st2
                    },
                )
            },
        },
    }
}

/// Spans with the pending text appended when there is any.
pub open spec fn flush(spans: Seq<SpanView>, text: Seq<char>, st: StyleView) -> Seq<SpanView> {
    if text.len() == 0 {
        spans
    } else {
        spans.push((text, st))
    }
}

/// Result of a markup parse: the spans, a parse error, or an abort.
pub ghost enum MarkupOutcome {
    Spans(Seq<SpanView>),
    Failed(MarkupError),
    Aborts,
}

pub proof fn lemma_attr_loop_advances(s: Seq<char>, pos: int, attrs: AttrsView)
    requires
        attr_loop(s, pos, attrs) is Ok,
    ensures
        pos <= attr_loop(s, pos, attrs)->Ok_0.1,
    decreases s.len() - pos,
{
    if 0 <= pos <= s.len() && !(pos < s.len() && (s[pos] == '>' || s[pos] == '/')) {
        let ke = ident_end(s, pos);
        lemma_ends(s, pos, '"');
        lemma_ends(s, ke, '"');
        let p = ws_end(s, ke);
        if p < s.len() && s[p] == '=' {
            lemma_ends(s, p + 1, '"');
            let p2 = ws_end(s, p + 1);
            match attr_value(s, p2) {
                None => {},
                Some((v, p3)) => {
                    lemma_ends(s, p2, s[p2]);
                    lemma_ends(s, p2 + 1, s[p2]);
                    lemma_ends(s, p3, '"');
                    lemma_attr_loop_advances(s, ws_end(s, p3), attrs.push((s.subrange(pos, ke), v)));
                },
            }
        } else {
            lemma_ends(s, p, '"');
            lemma_attr_loop_advances(s, ws_end(s, p), attrs.push((s.subrange(pos, ke), "true"@)));
        }
    }
}

pub proof fn lemma_tag_advances(s: Seq<char>, pos: int)
    requires
        0 <= pos < s.len(),
        tag_at(s, pos) is Ok,
    ensures
        pos < tag_at(s, pos)->Ok_0.1 <= s.len(),
{
    let p0 = pos + 1;
    let closing = 0 <= p0 < s.len() && s[p0] == '/';
    let p = if closing { p0 + 1 } else { p0 };
    lemma_ends(s, p, '"');
    let ne = ident_end(s, p);
    if !closing {
        lemma_ends(s, ne, '"');
        let p1 = ws_end(s, ne);
        let name = s.subrange(p, ne);
        if 0 <= p1 < s.len() && s[p1] == '=' {
            lemma_ends(s, p1 + 1, s[p1 + 1]);
            lemma_ends(s, p1 + 2, s[p1 + 1]);
            match attr_value(s, p1 + 1) {
                None => {},
                Some((v, p2)) => {
                    lemma_ends(s, p2, '"');
                    lemma_attr_loop_advances(s, ws_end(s, p2), seq![(name, v)]);
                },
            }
        } else {
            lemma_attr_loop_advances(s, p1, Seq::empty());
        }
    }
}

/// The parse of `s` from `pos` with pending text `text`, the style stack
/// `stack` and the spans so far.
pub open spec fn content_from(
    s: Seq<char>,
    pos: int,
    text: Seq<char>,
    stack: Seq<StyleView>,
    spans: Seq<SpanView>,
) -> MarkupOutcome
    decreases s.len() - pos,
{
    if pos < 0 || pos >= s.len() {
        MarkupOutcome::Spans(flush(spans, text, stack.last()))
    } else if s[pos] == '<' {
        let spans2 = flush(spans, text, stack.last());
        match tag_at(s, pos) {
            Err(e) => MarkupOutcome::Failed(e),
            Ok((tag, p)) => {
                proof {
                    lemma_tag_advances(s, pos);
                }
                match tag {
                    TagView::Open(k, attrs) => match apply_tag(stack.last(), k, attrs) {
                        None => MarkupOutcome::Aborts,
                        Some(st) => content_from(s, p, Seq::empty(), stack.push(st), spans2),
                    },
                    TagView::Close(_) => content_from(
                        s,
                        p,
                        Seq::empty(),
                        if stack.len() > 1 {
                            stack.drop_last()
                        } else {
                            stack
                        },
                        spans2,
                    ),
                }
            },
        }
    } else {
        content_from(s, pos + 1, text.push(s[pos]), stack, spans)
    }
}

/// The markup parse of `s` in base style `base`.
pub open spec fn parse_markup(s: Seq<char>, base: StyleView) -> MarkupOutcome {
    content_from(s, 0, Seq::empty(), seq![base], Seq::empty())
}

/// Text that holds both `<` and `>` is treated as markup.
pub open spec fn spec_has_markup(s: Seq<char>) -> bool {
    s.contains('<') && s.contains('>')
}

/// Parsing `s` would abort on a colour value that splits a character.
pub open spec fn markup_aborts(s: Seq<char>, base: StyleView) -> bool {
    spec_has_markup(s) && parse_markup(s, base) is Aborts
}

/// The rich text of `s`: one plain span for text without markup or with
/// malformed markup, the parsed spans otherwise.
pub open spec fn rich_text_of(s: Seq<char>, base: StyleView) -> (Seq<SpanView>, bool) {
    if !spec_has_markup(s) {
        (seq![(s, base)], true)
    } else {
        match parse_markup(s, base) {
            MarkupOutcome::Spans(sp) => (sp, false),
            _ => (seq![(s, base)], true),
        }
    }
}


// ---------------------------------------------------------------------------
// Reading hex colours
// ---------------------------------------------------------------------------

fn utf8_len_exec(c: char) -> (n: usize)
    ensures
        n == utf8_len(c),
{
    let code = c as u32;
    if code < 0x80 {
        1
    } else if code < 0x800 {
        2
    } else if code < 0x10000 {
        3
    } else {
        4
    }
}

proof fn lemma_char_at_byte_range(t: Seq<char>, i: int, acc: int, b: int)
    requires
        0 <= i <= t.len(),
        char_at_byte(t, i, acc, b) is Some,
    ensures
        i <= char_at_byte(t, i, acc, b)->Some_0 <= t.len(),
    decreases t.len() - i,
{
    if acc != b && !(acc > b || i >= t.len()) {
        lemma_char_at_byte_range(t, i + 1, acc + utf8_len(t[i]), b);
    }
}

proof fn lemma_char_at_byte_ordered(t: Seq<char>, i: int, acc: int, b1: int, b2: int)
    requires
        0 <= i <= t.len(),
        b1 <= b2,
        char_at_byte(t, i, acc, b1) is Some,
        char_at_byte(t, i, acc, b2) is Some,
    ensures
        char_at_byte(t, i, acc, b1)->Some_0 <= char_at_byte(t, i, acc, b2)->Some_0,
    decreases t.len() - i,
{
    if acc == b1 {
        lemma_char_at_byte_range(t, i, acc, b2);
    } else if !(acc > b1 || i >= t.len()) {
        lemma_char_at_byte_ordered(t, i + 1, acc + utf8_len(t[i]), b1, b2);
    }
}

proof fn lemma_ascii_char_at_byte(t: Seq<char>, i: int, b: int)
    requires
        all_ascii(t),
        0 <= i <= b <= t.len(),
    ensures
        char_at_byte(t, i, i, b) == Some(b),
    decreases b - i,
{
    if i < b {
        lemma_ascii_char_at_byte(t, i + 1, b);
    }
}

proof fn lemma_ascii_byte_len(t: Seq<char>)
    requires
        all_ascii(t),
    ensures
        byte_len(t) == t.len(),
    decreases t.len(),
{
    if t.len() > 0 {
        assert(all_ascii(t.drop_last()));
        lemma_ascii_byte_len(t.drop_last());
    }
}

proof fn lemma_hex_channel_either_case(t: Seq<char>, tl: Seq<char>, k: int)
    requires
        t.len() == tl.len(),
        0 <= k,
        2 * k + 2 <= t.len(),
        forall|i: int| 0 <= i < t.len() ==> is_hex_char(#[trigger] t[i]),
        forall|i: int| 0 <= i < t.len() ==> #[trigger] tl[i] == ascii_lower(t[i]),
    ensures
        hex_channel(t, k) is Ok,
        hex_channel(t, k) == hex_channel(tl, k),
{
    assert(all_ascii(t)) by {
        assert forall|i: int| 0 <= i < t.len() implies (t[i] as u32) < 128 by {
            assert(is_hex_char(t[i]));
        }
    }
    assert(all_ascii(tl)) by {
        assert forall|i: int| 0 <= i < tl.len() implies (tl[i] as u32) < 128 by {
            assert(is_hex_char(t[i]));
            assert(tl[i] == ascii_lower(t[i]));
        }
    }
    lemma_ascii_char_at_byte(t, 0, 2 * k);
    lemma_ascii_char_at_byte(t, 0, 2 * k + 2);
    lemma_ascii_char_at_byte(tl, 0, 2 * k);
    lemma_ascii_char_at_byte(tl, 0, 2 * k + 2);
    let p = t.subrange(2 * k, 2 * k + 2);
    let pl = tl.subrange(2 * k, 2 * k + 2);
    assert(p[0] == t[2 * k] && p[1] == t[2 * k + 1]);
    assert(pl[0] == tl[2 * k] && pl[1] == tl[2 * k + 1]);
    assert(is_hex_char(t[2 * k]) && is_hex_char(t[2 * k + 1]));
    lemma_hex_digit_either_case(t[2 * k]);
    lemma_hex_digit_either_case(t[2 * k + 1]);
    lemma_hex_digit_either_case(tl[2 * k]);
    lemma_hex_digit_either_case(tl[2 * k + 1]);
}

/// The value of a hexadecimal digit: `0`-`9` are 0 to 9, and `a`-`f` and
/// `A`-`F` are 10 to 15.
pub proof fn lemma_hex_digit_values(k: u32)
    ensures
        k < 10 ==> hex_digit_value((('0' as u32) + k) as char) == Some(k as int),
        k < 6 ==> hex_digit_value((('a' as u32) + k) as char) == Some(10 + k),
        k < 6 ==> hex_digit_value((('A' as u32) + k) as char) == Some(10 + k),
{
}

/// Reading a hex colour does not depend on the case of its digits: `#`
/// followed by 6 or 8 hexadecimal digits (either case) is read as a colour,
/// the same one as its lower-case form, with alpha 255 for 6 digits.
pub proof fn lemma_hex_color_either_case(t: Seq<char>)
    requires
        t.len() == 6 || t.len() == 8,
        forall|i: int| 0 <= i < t.len() ==> is_hex_char(#[trigger] t[i]),
    ensures
        hex_color(seq!['#'] + t) matches HexOutcome::Rgba(_, _, _, a) && (t.len() == 6 ==> a == 255),
        hex_color(seq!['#'] + t) == hex_color(seq!['#'] + t.map_values(|c: char| ascii_lower(c))),
{
    let tl = t.map_values(|c: char| ascii_lower(c));
    let v = seq!['#'] + t;
    let vl = seq!['#'] + tl;
    assert forall|i: int| 0 <= i < t.len() implies is_hex_char(#[trigger] tl[i]) by {
        assert(is_hex_char(t[i]));
        lemma_hex_digit_either_case(t[i]);
        lemma_hex_digit_either_case(tl[i]);
    }
    assert(v.drop_first() =~= t);
    assert(vl.drop_first() =~= tl);
    assert(is_hex_char(t[0]) && is_hex_char(tl[0]));
    assert(strip_hashes(t) == t);
    assert(strip_hashes(tl) == tl);
    assert(strip_hashes(v) == t);
    assert(strip_hashes(vl) == tl);
    assert(all_ascii(t)) by {
        assert forall|i: int| 0 <= i < t.len() implies (t[i] as u32) < 128 by {
            assert(is_hex_char(t[i]));
        }
    }
    assert(all_ascii(tl)) by {
        assert forall|i: int| 0 <= i < tl.len() implies (tl[i] as u32) < 128 by {
            assert(is_hex_char(tl[i]));
        }
    }
    lemma_ascii_byte_len(t);
    lemma_ascii_byte_len(tl);
    lemma_hex_channel_either_case(t, tl, 0);
    lemma_hex_channel_either_case(t, tl, 1);
    lemma_hex_channel_either_case(t, tl, 2);
    if t.len() == 8 {
        lemma_hex_channel_either_case(t, tl, 3);
    }
}

/// Index of the character starting at byte `b` of `t`.
fn char_at_byte_exec(t: &Vec<char>, b: usize) -> (r: Option<usize>)
    requires
        b <= 8,
    ensures
        r == match char_at_byte(t@, 0, 0, b as int) {
            Some(i) => Some(i as usize),
            None => None::<usize>,
        },
        r matches Some(i) ==> i <= t.len(),
{
    let mut i: usize = 0;
    let mut acc: usize = 0;
    while acc < b && i < t.len()
        invariant
            i <= t.len(),
            acc <= b + 4,
            b <= 8,
            char_at_byte(t@, i as int, acc as int, b as int) == char_at_byte(t@, 0, 0, b as int),
        decreases t.len() - i,
    {
        acc = acc + utf8_len_exec(t[i]);
        i = i + 1;
    }
    if acc == b {
        Some(i)
    } else {
        None
    }
}

fn hex_digit_exec(c: char) -> (d: Option<u8>)
    ensures
        d == match hex_digit_value(c) {
            Some(v) => Some(v as u8),
            None => None::<u8>,
        },
        d matches Some(v) ==> v < 16,
{
    if '0' <= c && c <= '9' {
        Some(((c as u32) - ('0' as u32)) as u8)
    } else if 'a' <= c && c <= 'f' {
        Some(((c as u32) - ('a' as u32) + 10) as u8)
    } else if 'A' <= c && c <= 'F' {
        Some(((c as u32) - ('A' as u32) + 10) as u8)
    } else {
        None
    }
}

fn channel_exec(k: usize) -> (c: Channel)
    ensures
        c == channel_of(k as int),
{
    if k == 0 {
        Channel::Red
    } else if k == 1 {
        Channel::Green
    } else if k == 2 {
        Channel::Blue
    } else {
        Channel::Alpha
    }
}

fn hex_channel_exec(t: &Vec<char>, k: usize) -> (r: Result<u8, HexOutcome>)
    requires
        k <= 3,
    ensures
        r == hex_channel(t@, k as int),
{
    let a = char_at_byte_exec(t, 2 * k);
    let z = char_at_byte_exec(t, 2 * k + 2);
    match (a, z) {
        (Some(a), Some(z)) => {
            proof {
                lemma_char_at_byte_range(t@, 0, 0, 2 * k as int);
                lemma_char_at_byte_range(t@, 0, 0, 2 * k + 2);
                lemma_char_at_byte_ordered(t@, 0, 0, 2 * k as int, 2 * k + 2);
            }
            let ghost p = t@.subrange(a as int, z as int);
            if z - a != 2 {
                return Err(HexOutcome::Invalid(ColorError::InvalidComponent(channel_exec(k))));
            }
            assert(p[0] == t@[a as int] && p[1] == t@[a + 1]);
            let lo = hex_digit_exec(t[a + 1]);
            match lo {
                None => Err(HexOutcome::Invalid(ColorError::InvalidComponent(channel_exec(k)))),
                Some(lo) => if t[a] == '+' {
                    Ok(lo)
                } else {
                    match hex_digit_exec(t[a]) {
                        None => Err(
                            HexOutcome::Invalid(ColorError::InvalidComponent(channel_exec(k))),
                        ),
                        Some(hi) => Ok(hi * 16 + lo),
                    }
                },
            }
        },
        _ => Err(HexOutcome::SplitsChar),
    }
}

/// The text with its leading `#`s removed.
fn strip_hash_chars(v: &Vec<char>) -> (t: Vec<char>)
    ensures
        t@ == strip_hashes(v@),
{
    let mut i: usize = 0;
    assert(v@.subrange(0, v.len() as int) =~= v@);
    while i < v.len() && v[i] == '#'
        invariant
            i <= v.len(),
            strip_hashes(v@.subrange(i as int, v.len() as int)) == strip_hashes(v@),
        decreases v.len() - i,
    {
        assert(v@.subrange(i as int, v.len() as int).drop_first() =~= v@.subrange(
            i + 1,
            v.len() as int,
        ));
        i = i + 1;
    }
    let mut t: Vec<char> = Vec::new();
    let mut j: usize = i;
    while j < v.len()
        invariant
            i <= j <= v.len(),
            t@ == v@.subrange(i as int, j as int),
        decreases v.len() - j,
    {
        t.push(v[j]);
        j = j + 1;
        assert(t@ =~= v@.subrange(i as int, j as int));
    }
    assert(t@ =~= v@.subrange(i as int, v.len() as int));
    t
}

/// The message for a colour error on `hex`, as the toolkit words it.
pub open spec fn color_error_text(e: ColorError, hex: Seq<char>) -> Seq<char> {
    match e {
        ColorError::InvalidLength => "Invalid hex color: "@ + strip_hashes(hex)
            + ". Expected 6 or 8 characters"@,
        ColorError::InvalidComponent(Channel::Red) => "Invalid red component"@,
        ColorError::InvalidComponent(Channel::Green) => "Invalid green component"@,
        ColorError::InvalidComponent(Channel::Blue) => "Invalid blue component"@,
        ColorError::InvalidComponent(Channel::Alpha) => "Invalid alpha component"@,
    }
}

/// The message for a colour error on the colour text `hex`.
pub fn color_error_message(e: ColorError, hex: &str) -> (m: String)
    ensures
        m@ == color_error_text(e, hex@),
{
    match e {
        ColorError::InvalidLength => {
            let v = str_to_chars(hex);
            let mut out = str_to_chars("Invalid hex color: ");
            let mut t = strip_hash_chars(&v);
            out.append(&mut t);
            let mut tail = str_to_chars(". Expected 6 or 8 characters");
            out.append(&mut tail);
            chars_to_string(&out)
        },
        ColorError::InvalidComponent(Channel::Red) => "Invalid red component".to_string(),
        ColorError::InvalidComponent(Channel::Green) => "Invalid green component".to_string(),
        ColorError::InvalidComponent(Channel::Blue) => "Invalid blue component".to_string(),
        ColorError::InvalidComponent(Channel::Alpha) => "Invalid alpha component".to_string(),
    }
}

/// Reads a hex colour given as characters.
pub fn hex_color_exec(v: &Vec<char>) -> (r: HexOutcome)
    ensures
        r == hex_color(v@),
{
    let mut i: usize = 0;
    assert(v@.subrange(0, v.len() as int) =~= v@);
    while i < v.len() && v[i] == '#'
        invariant
            i <= v.len(),
            strip_hashes(v@.subrange(i as int, v.len() as int)) == strip_hashes(v@),
        decreases v.len() - i,
    {
        assert(v@.subrange(i as int, v.len() as int).drop_first() =~= v@.subrange(
            i + 1,
            v.len() as int,
        ));
        i = i + 1;
    }
    let mut t: Vec<char> = Vec::new();
    let mut j: usize = i;
    while j < v.len()
        invariant
            i <= j <= v.len(),
            t@ == v@.subrange(i as int, j as int),
        decreases v.len() - j,
    {
        t.push(v[j]);
        j = j + 1;
        assert(t@ =~= v@.subrange(i as int, j as int));
    }
    assert(t@ =~= v@.subrange(i as int, v.len() as int));
    assert(strip_hashes(t@) == t@);
    // Byte length, capped at 9 since only 6 and 8 matter.
    let mut bl: usize = 0;
    let mut q: usize = 0;
    while q < t.len() && bl <= 8
        invariant
            q <= t.len(),
            bl == byte_len(t@.subrange(0, q as int)),
            bl <= 12,
        decreases t.len() - q,
    {
        assert(t@.subrange(0, q + 1).drop_last() =~= t@.subrange(0, q as int));
        bl = bl + utf8_len_exec(t[q]);
        q = q + 1;
    }
    proof {
        lemma_byte_len_grows(t@, q as int);
        assert(t@.subrange(0, t@.len() as int) =~= t@);
    }
    if bl != 6 && bl != 8 || q < t.len() {
        return HexOutcome::Invalid(ColorError::InvalidLength);
    }
    assert(t@.subrange(0, q as int) =~= t@);
    let r = match hex_channel_exec(&t, 0) {
        Err(o) => return o,
        Ok(r) => r,
    };
    let g = match hex_channel_exec(&t, 1) {
        Err(o) => return o,
        Ok(g) => g,
    };
    let b = match hex_channel_exec(&t, 2) {
        Err(o) => return o,
        Ok(b) => b,
    };
    if bl == 6 {
        HexOutcome::Rgba(r, g, b, 255)
    } else {
        match hex_channel_exec(&t, 3) {
            Err(o) => o,
            Ok(a) => HexOutcome::Rgba(r, g, b, a),
        }
    }
}

proof fn lemma_byte_len_grows(t: Seq<char>, q: int)
    requires
        0 <= q <= t.len(),
    ensures
        byte_len(t.subrange(0, q)) <= byte_len(t),
        q < t.len() ==> byte_len(t.subrange(0, q)) + 1 <= byte_len(t),
    decreases t.len() - q,
{
    if q < t.len() {
        lemma_byte_len_grows(t, q + 1);
        assert(t.subrange(0, q + 1).drop_last() =~= t.subrange(0, q));
    } else {
        assert(t.subrange(0, q) =~= t);
    }
}

/// Parses a hex colour `#RRGGBB` or `#RRGGBBAA` (leading `#`s optional,
/// digits in either case) into RGBA bytes; alpha is 255 when absent.
pub fn parse_hex_color(hex: &str) -> (r: Result<(u8, u8, u8, u8), ColorError>)
    requires
        hex_color(hex@) != HexOutcome::SplitsChar,
    ensures
        match hex_color(hex@) {
            HexOutcome::Rgba(rr, g, b, a) => r == Ok::<(u8, u8, u8, u8), ColorError>((rr, g, b, a)),
            HexOutcome::Invalid(e) => r == Err::<(u8, u8, u8, u8), ColorError>(e),
            HexOutcome::SplitsChar => false,
        },
{
    let v = str_to_chars(hex);
    match hex_color_exec(&v) {
        HexOutcome::Rgba(r, g, b, a) => Ok((r, g, b, a)),
        HexOutcome::Invalid(e) => Err(e),
        HexOutcome::SplitsChar => Err(ColorError::InvalidLength),
    }
}


// ---------------------------------------------------------------------------
// Scanning
// ---------------------------------------------------------------------------

fn ident_end_exec(s: &Vec<char>, pos: usize) -> (e: usize)
    requires
        pos <= s.len(),
    ensures
        e == ident_end(s@, pos as int),
        pos <= e <= s.len(),
{
    let mut i = pos;
    while i < s.len() && (is_alphanumeric(s[i]) || s[i] == '_' || s[i] == '-')
        invariant
            pos <= i <= s.len(),
            ident_end(s@, i as int) == ident_end(s@, pos as int),
        decreases s.len() - i,
    {
        i = i + 1;
    }
    i
}

fn ws_end_exec(s: &Vec<char>, pos: usize) -> (e: usize)
    requires
        pos <= s.len(),
    ensures
        e == ws_end(s@, pos as int),
        pos <= e <= s.len(),
{
    let mut i = pos;
    while i < s.len() && is_whitespace(s[i])
        invariant
            pos <= i <= s.len(),
            ws_end(s@, i as int) == ws_end(s@, pos as int),
        decreases s.len() - i,
    {
        i = i + 1;
    }
    i
}

fn quote_end_exec(s: &Vec<char>, pos: usize, q: char) -> (e: usize)
    requires
        pos <= s.len(),
    ensures
        e == quote_end(s@, pos as int, q),
        pos <= e <= s.len(),
{
    let mut i = pos;
    while i < s.len() && s[i] != q
        invariant
            pos <= i <= s.len(),
            quote_end(s@, i as int, q) == quote_end(s@, pos as int, q),
        decreases s.len() - i,
    {
        i = i + 1;
    }
    i
}

fn unquoted_end_exec(s: &Vec<char>, pos: usize) -> (e: usize)
    requires
        pos <= s.len(),
    ensures
        e == unquoted_end(s@, pos as int),
        pos <= e <= s.len(),
{
    let mut i = pos;
    while i < s.len() && !is_whitespace(s[i]) && s[i] != '>'
        invariant
            pos <= i <= s.len(),
            unquoted_end(s@, i as int) == unquoted_end(s@, pos as int),
        decreases s.len() - i,
    {
        i = i + 1;
    }
    i
}

/// The characters of `s` from `a` up to `b`.
fn slice_chars(s: &Vec<char>, a: usize, b: usize) -> (r: Vec<char>)
    requires
        a <= b <= s.len(),
    ensures
        r@ == s@.subrange(a as int, b as int),
{
    let mut r: Vec<char> = Vec::new();
    let mut i = a;
    while i < b
        invariant
            a <= i <= b <= s.len(),
            r@ == s@.subrange(a as int, i as int),
        decreases b - i,
    {
        r.push(s[i]);
        i = i + 1;
        assert(r@ =~= s@.subrange(a as int, i as int));
    }
    r
}

fn attr_value_exec(s: &Vec<char>, pos: usize) -> (r: Option<(Vec<char>, usize)>)
    requires
        pos <= s.len(),
    ensures
        match attr_value(s@, pos as int) {
            None => r is None,
            Some((v, p)) => r matches Some((rv, rp)) && rv@ == v && rp == p,
        },
        r matches Some((_, rp)) ==> pos <= rp <= s.len(),
{
    if pos < s.len() && (s[pos] == '"' || s[pos] == '\'') {
        let q = s[pos];
        let e = quote_end_exec(s, pos + 1, q);
        if e >= s.len() {
            None
        } else {
            Some((slice_chars(s, pos + 1, e), e + 1))
        }
    } else {
        let e = unquoted_end_exec(s, pos);
        Some((slice_chars(s, pos, e), e))
    }
}

pub type Attrs = Vec<(Vec<char>, Vec<char>)>;

proof fn lemma_attrs_push(a: Seq<(Vec<char>, Vec<char>)>, x: (Vec<char>, Vec<char>))
    ensures
        attrs_view(a.push(x)) == attrs_view(a).push((x.0@, x.1@)),
{
    assert(attrs_view(a.push(x)) =~= attrs_view(a).push((x.0@, x.1@)));
}

fn attr_loop_exec(s: &Vec<char>, pos: usize, attrs: Attrs) -> (r: Result<(Attrs, usize), MarkupError>)
    requires
        pos <= s.len(),
    ensures
        match attr_loop(s@, pos as int, attrs_view(attrs@)) {
            Ok((a, p)) => r matches Ok((ra, rp)) && attrs_view(ra@) == a && rp == p,
            Err(e) => r == Err::<(Attrs, usize), MarkupError>(e),
        },
{
    let ghost goal = attr_loop(s@, pos as int, attrs_view(attrs@));
    let mut p = pos;
    let mut acc = attrs;
    loop
        invariant
            p <= s.len(),
            attr_loop(s@, p as int, attrs_view(acc@)) == goal,
            goal == attr_loop(s@, pos as int, attrs_view(attrs@)),
        decreases s.len() - p,
    {
        if p < s.len() && (s[p] == '>' || s[p] == '/') {
            return Ok((acc, p));
        }
        let ke = ident_end_exec(s, p);
        if ke == p {
            return Err(MarkupError::ExpectedIdentifier);
        }
        let key = slice_chars(s, p, ke);
        let pp = ws_end_exec(s, ke);
        if pp < s.len() && s[pp] == '=' {
            let p2 = ws_end_exec(s, pp + 1);
            match attr_value_exec(s, p2) {
                None => {
                    return Err(MarkupError::UnterminatedString);
                },
                Some((v, p3)) => {
                    let ghost before = acc@;
                    let ghost item = (key, v);
                    acc.push((key, v));
                    proof {
                        lemma_attrs_push(before, item);
                    }
                    p = ws_end_exec(s, p3);
                },
            }
        } else {
            let t = str_to_chars("true");
            let ghost before = acc@;
            let ghost item = (key, t);
            acc.push((key, t));
            proof {
                lemma_attrs_push(before, item);
            }
            p = ws_end_exec(s, pp);
        }
    }
}

fn tag_content_exec(s: &Vec<char>, pos: usize, name: Vec<char>) -> (r: Result<(Attrs, usize), MarkupError>)
    requires
        pos <= s.len(),
    ensures
        match tag_content(s@, pos as int, name@) {
            Ok((a, p)) => r matches Ok((ra, rp)) && attrs_view(ra@) == a && rp == p,
            Err(e) => r == Err::<(Attrs, usize), MarkupError>(e),
        },
{
    let p1 = ws_end_exec(s, pos);
    if p1 < s.len() && s[p1] == '=' {
        match attr_value_exec(s, p1 + 1) {
            None => Err(MarkupError::UnterminatedString),
            Some((v, p2)) => {
                let mut first: Attrs = Vec::new();
                let ghost item = (name, v);
                first.push((name, v));
                proof {
                    lemma_attrs_push(Seq::empty(), item);
                    assert(attrs_view(Seq::<(Vec<char>, Vec<char>)>::empty()) =~= Seq::empty());
                    assert(first@ =~= Seq::<(Vec<char>, Vec<char>)>::empty().push(item));
                }
                let p3 = ws_end_exec(s, p2);
                attr_loop_exec(s, p3, first)
            },
        }
    } else {
        let empty: Attrs = Vec::new();
        assert(attrs_view(empty@) =~= Seq::empty());
        attr_loop_exec(s, p1, empty)
    }
}

/// The kind of tag named `name`, case-insensitively.
fn tag_kind_exec(name: &Vec<char>) -> (k: Option<TagKind>)
    ensures
        k == tag_kind(name@),
{
    let name_s = chars_to_string(name);
    let lower = to_lowercase(name_s.as_str());
    let l = str_to_chars(lower.as_str());
    if chars_are(&l, "color") {
        Some(TagKind::Color)
    } else if chars_are(&l, "size") {
        Some(TagKind::Size)
    } else if chars_are(&l, "font") {
        Some(TagKind::Font)
    } else if chars_are(&l, "bold") || chars_are(&l, "b") {
        Some(TagKind::Bold)
    } else if chars_are(&l, "italic") || chars_are(&l, "i") {
        Some(TagKind::Italic)
    } else if chars_are(&l, "underline") || chars_are(&l, "u") {
        Some(TagKind::Underline)
    } else if chars_are(&l, "span") {
        Some(TagKind::Span)
    } else {
        None
    }
}

fn tag_at_exec(s: &Vec<char>, pos: usize) -> (r: Result<(Tag, usize), MarkupError>)
    requires
        pos < s.len(),
    ensures
        match tag_at(s@, pos as int) {
            Ok((t, p)) => r matches Ok((rt, rp)) && tag_view(rt) == t && rp == p,
            Err(e) => r matches Err(re) && re == e,
        },
{
    let p0 = pos + 1;
    let closing = p0 < s.len() && s[p0] == '/';
    let p = if closing { p0 + 1 } else { p0 };
    let ne = ident_end_exec(s, p);
    if ne == p {
        return Err(MarkupError::ExpectedIdentifier);
    }
    let name = slice_chars(s, p, ne);
    let kind = tag_kind_exec(&name);
    let (attrs, q) = if closing {
        let empty: Attrs = Vec::new();
        assert(attrs_view(empty@) =~= Seq::empty());
        (empty, ne)
    } else {
        match tag_content_exec(s, ne, name) {
            Err(e) => {
                return Err(e);
            },
            Ok(pair) => pair,
        }
    };
    if !(q < s.len() && s[q] == '>') {
        return Err(MarkupError::Expected('>'));
    }
    match kind {
        None => Err(MarkupError::UnknownTag),
        Some(k) => if closing {
            Ok((Tag::Close(k), q + 1))
        } else {
            Ok((Tag::Open(k, attrs), q + 1))
        },
    }
}

// ---------------------------------------------------------------------------
// Styles
// ---------------------------------------------------------------------------

fn copy_chars(v: &Vec<char>) -> (r: Vec<char>)
    ensures
        r@ == v@,
{
    slice_chars(v, 0, v.len())
}

fn lookup_exec(attrs: &Attrs, key: &str) -> (r: Option<Vec<char>>)
    ensures
        match lookup(attrs_view(attrs@), key@) {
            None => r is None,
            Some(v) => r matches Some(rv) && rv@ == v,
        },
{
    let k = str_to_chars(key);
    let mut i = attrs.len();
    assert(attrs@.subrange(0, i as int) =~= attrs@);
    while i > 0
        invariant
            i <= attrs.len(),
            k@ == key@,
            lookup(attrs_view(attrs@), key@) == lookup(attrs_view(attrs@.subrange(0, i as int)), key@),
        decreases i,
    {
        let ghost sub = attrs@.subrange(0, i as int);
        assert(attrs_view(sub).last() == (attrs@[i - 1].0@, attrs@[i - 1].1@));
        assert(attrs_view(sub).drop_last() =~= attrs_view(attrs@.subrange(0, i - 1)));
        if chars_equal(&attrs[i - 1].0, &k) {
            return Some(copy_chars(&attrs[i - 1].1));
        }
        i = i - 1;
    }
    None
}

fn lookup_either_exec(attrs: &Attrs, k1: &str, k2: &str) -> (r: Option<Vec<char>>)
    ensures
        match lookup_either(attrs_view(attrs@), k1@, k2@) {
            None => r is None,
            Some(v) => r matches Some(rv) && rv@ == v,
        },
{
    match lookup_exec(attrs, k1) {
        Some(v) => Some(v),
        None => lookup_exec(attrs, k2),
    }
}

fn copy_style(st: &TextStyle) -> (r: TextStyle)
    ensures
        r@ == st@,
{
    let mut sizes: Vec<String> = Vec::new();
    let mut i: usize = 0;
    while i < st.font_sizes.len()
        invariant
            i <= st.font_sizes.len(),
            sizes@.map_values(|s: String| s@) == st.font_sizes@.subrange(0, i as int).map_values(
                |s: String| s@,
            ),
        decreases st.font_sizes.len() - i,
    {
        let ghost before = sizes@;
        sizes.push(st.font_sizes[i].clone());
        i = i + 1;
        proof {
            assert(sizes@.map_values(|s: String| s@) =~= before.map_values(|s: String| s@).push(
                st.font_sizes@[i - 1]@,
            ));
            assert(st.font_sizes@.subrange(0, i as int).map_values(|s: String| s@)
                =~= st.font_sizes@.subrange(0, i - 1).map_values(|s: String| s@).push(
                st.font_sizes@[i - 1]@,
            ));
        }
    }
    assert(st.font_sizes@.subrange(0, i as int) =~= st.font_sizes@);
    let font_family = match &st.font_family {
        Some(f) => Some(f.clone()),
        None => None,
    };
    TextStyle {
        color: st.color,
        font_sizes: sizes,
        font_family,
        bold: st.bold,
        italic: st.italic,
        underline: st.underline,
    }
}

fn with_color_exec(st: TextStyle, v: Option<Vec<char>>) -> (r: Option<TextStyle>)
    ensures
        match with_color(st@, match v {
            Some(c) => Some(c@),
            None => None,
        }) {
            None => r is None,
            Some(sv) => r matches Some(t) && t@ == sv,
        },
{
    match v {
        None => Some(st),
        Some(c) => match hex_color_exec(&c) {
            HexOutcome::Rgba(r, g, b, a) => Some(TextStyle { color: Some((r, g, b, a)), ..st }),
            HexOutcome::Invalid(_) => Some(st),
            HexOutcome::SplitsChar => None,
        },
    }
}

fn with_size_exec(st: TextStyle, v: Option<Vec<char>>) -> (r: TextStyle)
    ensures
        r@ == with_size(st@, match v {
            Some(c) => Some(c@),
            None => None,
        }),
{
    match v {
        None => st,
        Some(z) => {
            let mut st = st;
            let ghost before = st.font_sizes@;
            let zs = chars_to_string(&z);
            st.font_sizes.push(zs);
            assert(st.font_sizes@.map_values(|s: String| s@) =~= before.map_values(|s: String| s@).push(z@));
            st
        },
    }
}

fn with_font_exec(st: TextStyle, v: Option<Vec<char>>) -> (r: TextStyle)
    ensures
        r@ == with_font(st@, match v {
            Some(c) => Some(c@),
            None => None,
        }),
{
    match v {
        None => st,
        Some(f) => TextStyle { font_family: Some(chars_to_string(&f)), ..st },
    }
}

/// The style an opening tag derives from `st`; `None` where reading a
/// colour would split a character.
fn apply_tag_exec(st: &TextStyle, k: TagKind, attrs: &Attrs) -> (r: Option<TextStyle>)
    ensures
        match apply_tag(st@, k, attrs_view(attrs@)) {
            None => r is None,
            Some(sv) => r matches Some(t) && t@ == sv,
        },
{
    let base = copy_style(st);
    match k {
        TagKind::Color => with_color_exec(base, lookup_either_exec(attrs, "color", "c")),
        TagKind::Size => Some(with_size_exec(base, lookup_either_exec(attrs, "size", "s"))),
        TagKind::Font => Some(with_font_exec(base, lookup_either_exec(attrs, "font", "f"))),
        TagKind::Bold => Some(TextStyle { bold: true, ..base }),
        TagKind::Italic => Some(TextStyle { italic: true, ..base }),
        TagKind::Underline => Some(TextStyle { underline: true, ..base }),
        TagKind::Span => match with_color_exec(base, lookup_exec(attrs, "color")) {
            None => None,
            Some(st1) => {
                let st2 = with_font_exec(with_size_exec(st1, lookup_exec(attrs, "size")), lookup_exec(attrs, "font"));
                let bold = st2.bold || lookup_exec(attrs, "bold").is_some();
                let italic = st2.italic || lookup_exec(attrs, "italic").is_some();
                let underline = st2.underline || lookup_exec(attrs, "underline").is_some();
                Some(TextStyle { bold, italic, underline, ..st2 })
            },
        },
    }
}


// ---------------------------------------------------------------------------
// Parsing
// ---------------------------------------------------------------------------

pub open spec fn stack_view(st: Seq<TextStyle>) -> Seq<StyleView> {
    st.map_values(|t: TextStyle| t@)
}

/// Result of parsing markup.
#[derive(Debug)]
pub enum MarkupParse {
    Spans(Vec<TextSpan>),
    Failed(MarkupError),
    /// A colour value splits a character; reading it would abort.
    Aborts,
}

pub open spec fn markup_parse_view(r: MarkupParse) -> MarkupOutcome {
    match r {
        MarkupParse::Spans(sp) => MarkupOutcome::Spans(spans_view(sp@)),
        MarkupParse::Failed(e) => MarkupOutcome::Failed(e),
        MarkupParse::Aborts => MarkupOutcome::Aborts,
    }
}

/// Appends the pending text as a span in style `st`, when there is any.
fn flush_text(spans: &mut Vec<TextSpan>, text: &Vec<char>, st: &TextStyle)
    ensures
        spans_view(final(spans)@) == flush(spans_view(old(spans)@), text@, st@),
{
    if text.len() > 0 {
        let ghost before = old(spans)@;
        let span = TextSpan { text: chars_to_string(text), style: copy_style(st) };
        spans.push(span);
        assert(spans_view(spans@) =~= spans_view(before).push((text@, st@)));
    }
}

/// Parses markup `s` into spans, starting from the base style `base`.
pub fn parse_markup_chars(s: &Vec<char>, base: &TextStyle) -> (r: MarkupParse)
    ensures
        markup_parse_view(r) == parse_markup(s@, base@),
{
    let ghost goal = parse_markup(s@, base@);
    let mut pos: usize = 0;
    let mut text: Vec<char> = Vec::new();
    let mut stack: Vec<TextStyle> = Vec::new();
    stack.push(copy_style(base));
    let mut spans: Vec<TextSpan> = Vec::new();
    assert(stack_view(stack@) =~= seq![base@]);
    assert(spans_view(spans@) =~= Seq::empty());
    while pos < s.len()
        invariant
            pos <= s.len(),
            stack.len() >= 1,
            goal == parse_markup(s@, base@),
            content_from(s@, pos as int, text@, stack_view(stack@), spans_view(spans@)) == goal,
        decreases s.len() - pos,
    {
        if s[pos] == '<' {
            let top = stack.len() - 1;
            assert(stack_view(stack@).last() == stack@[top as int]@);
            flush_text(&mut spans, &text, &stack[top]);
            text = Vec::new();
            match tag_at_exec(s, pos) {
                Err(e) => {
                    return MarkupParse::Failed(e);
                },
                Ok((tag, p)) => {
                    proof {
                        lemma_tag_advances(s@, pos as int);
                    }
                    match tag {
                        Tag::Open(k, attrs) => match apply_tag_exec(&stack[top], k, &attrs) {
                            None => {
                                return MarkupParse::Aborts;
                            },
                            Some(st) => {
                                let ghost before = stack@;
                                let ghost pushed = st;
                                stack.push(st);
                                assert(stack_view(stack@) =~= stack_view(before).push(pushed@));
                                pos = p;
                            },
                        },
                        Tag::Close(_) => {
                            if stack.len() > 1 {
                                let ghost before = stack@;
                                stack.pop();
                                assert(stack_view(stack@) =~= stack_view(before).drop_last());
                            }
                            pos = p;
                        },
                    }
                },
            }
        } else {
            text.push(s[pos]);
            pos = pos + 1;
        }
    }
    let top = stack.len() - 1;
    assert(stack_view(stack@).last() == stack@[top as int]@);
    flush_text(&mut spans, &text, &stack[top]);
    MarkupParse::Spans(spans)
}

/// Concatenated text of spans.
pub open spec fn spans_text(spans: Seq<SpanView>) -> Seq<char>
    decreases spans.len(),
{
    if spans.len() == 0 {
        Seq::empty()
    } else {
        spans_text(spans.drop_last()) + spans.last().0
    }
}

impl RichText {
    /// Parses text that may hold markup. Text without both `<` and `>` is
    /// one plain span; markup that does not parse is also kept as one plain
    /// span of the whole text.
    pub fn parse(text: &str, default_style: TextStyle) -> (r: RichText)
        requires
            !markup_aborts(text@, default_style@),
        ensures
            (spans_view(r.spans@), r.is_plain) == rich_text_of(text@, default_style@),
    {
        if !Self::has_markup(text) {
            return Self::plain(text, default_style);
        }
        let chars = str_to_chars(text);
        match parse_markup_chars(&chars, &default_style) {
            MarkupParse::Spans(spans) => RichText { spans, is_plain: false },
            _ => Self::plain(text, default_style),
        }
    }

    /// Parses like [`RichText::parse`], or gives `None` for text whose markup
    /// holds a colour value that splits a character.
    pub fn try_parse(text: &str, default_style: TextStyle) -> (r: Option<RichText>)
        ensures
            r is None <==> markup_aborts(text@, default_style@),
            r matches Some(rt) ==> (spans_view(rt.spans@), rt.is_plain) == rich_text_of(
                text@,
                default_style@,
            ),
    {
        if !Self::has_markup(text) {
            return Some(Self::plain(text, default_style));
        }
        let chars = str_to_chars(text);
        match parse_markup_chars(&chars, &default_style) {
            MarkupParse::Spans(spans) => Some(RichText { spans, is_plain: false }),
            MarkupParse::Failed(_) => Some(Self::plain(text, default_style)),
            MarkupParse::Aborts => None,
        }
    }

    /// One span holding the whole text in `style`.
    pub fn plain(text: &str, style: TextStyle) -> (r: RichText)
        ensures
            spans_view(r.spans@) == seq![(text@, style@)],
            r.is_plain,
    {
        let chars = str_to_chars(text);
        let mut spans: Vec<TextSpan> = Vec::new();
        let ghost sv = style@;
        spans.push(TextSpan { text: chars_to_string(&chars), style });
        assert(spans_view(spans@) =~= seq![(text@, sv)]);
        RichText { spans, is_plain: true }
    }

    /// The text without formatting.
    pub fn to_plain(&self) -> (s: String)
        ensures
            s@ == spans_text(spans_view(self.spans@)),
    {
        let mut out: Vec<char> = Vec::new();
        let mut i: usize = 0;
        while i < self.spans.len()
            invariant
                i <= self.spans.len(),
                out@ == spans_text(spans_view(self.spans@.subrange(0, i as int))),
            decreases self.spans.len() - i,
        {
            let piece = str_to_chars(self.spans[i].text.as_str());
            let mut j: usize = 0;
            let ghost start = out@;
            while j < piece.len()
                invariant
                    j <= piece.len(),
                    out@ == start + piece@.subrange(0, j as int),
                decreases piece.len() - j,
            {
                out.push(piece[j]);
                j = j + 1;
                assert(out@ =~= start + piece@.subrange(0, j as int));
            }
            assert(piece@.subrange(0, j as int) =~= piece@);
            assert(spans_view(self.spans@.subrange(0, i + 1)).drop_last() =~= spans_view(
                self.spans@.subrange(0, i as int),
            ));
            i = i + 1;
        }
        assert(self.spans@.subrange(0, i as int) =~= self.spans@);
        chars_to_string(&out)
    }

    /// The text holds both `<` and `>`.
    pub fn has_markup(text: &str) -> (b: bool)
        ensures
            b == spec_has_markup(text@),
    {
        let chars = str_to_chars(text);
        let mut lt = false;
        let mut gt = false;
        let mut i: usize = 0;
        while i < chars.len()
            invariant
                i <= chars.len(),
                chars@ == text@,
                lt == (exists|j: int| 0 <= j < i && chars@[j] == '<'),
                gt == (exists|j: int| 0 <= j < i && chars@[j] == '>'),
            decreases chars.len() - i,
        {
            if chars[i] == '<' {
                lt = true;
            }
            if chars[i] == '>' {
                gt = true;
            }
            i = i + 1;
        }
        lt && gt
    }
}

/// The spans and plainness of a rich text.
pub open spec fn rich_view(r: RichText) -> (Seq<SpanView>, bool) {
    (spans_view(r.spans@), r.is_plain)
}

/// A copy of `r` with equal spans.
pub fn copy_rich_text(r: &RichText) -> (c: RichText)
    ensures
        rich_view(c) == rich_view(*r),
{
    let mut spans: Vec<TextSpan> = Vec::new();
    let mut i: usize = 0;
    while i < r.spans.len()
        invariant
            i <= r.spans.len(),
            spans_view(spans@) == spans_view(r.spans@.subrange(0, i as int)),
        decreases r.spans.len() - i,
    {
        let ghost before = spans@;
        let sp = TextSpan { text: r.spans[i].text.clone(), style: copy_style(&r.spans[i].style) };
        assert((sp.text@, sp.style@) == (r.spans@[i as int].text@, r.spans@[i as int].style@));
        spans.push(sp);
        i = i + 1;
        proof {
            assert(spans@ =~= before.push(sp));
            assert(spans_view(spans@) =~= spans_view(before).push((sp.text@, sp.style@)));
            assert(r.spans@.subrange(0, i as int) =~= r.spans@.subrange(0, i - 1).push(
                r.spans@[i - 1],
            ));
            assert(spans_view(r.spans@.subrange(0, i as int)) =~= spans_view(
                r.spans@.subrange(0, i - 1),
            ).push((r.spans@[i - 1].text@, r.spans@[i - 1].style@)));
        }
    }
    assert(r.spans@.subrange(0, i as int) =~= r.spans@);
    RichText { spans, is_plain: r.is_plain }
}

/// Opening a size tag appends the size it gives to the enclosing style's
/// sizes and keeps everything else, whether the value is given as `size=`
/// or as `s=` (the tag's own value `<size=v>` is given under its name); a
/// size tag without a value keeps the style.
pub proof fn lemma_size_tag_appends(st: StyleView, key: Seq<char>, v: Seq<char>)
    requires
        key == "size"@ || key == "s"@,
    ensures
        apply_tag(st, TagKind::Size, seq![(key, v)]) == Some(
            StyleView { sizes: st.sizes.push(v), ..st },
        ),
        apply_tag(st, TagKind::Size, Seq::empty()) == Some(st),
{
    reveal_strlit("size");
    reveal_strlit("s");
    let a = seq![(key, v)];
    assert(a.drop_last() =~= Seq::<(Seq<char>, Seq<char>)>::empty());
    if key == "s"@ {
        assert(key.len() != "size"@.len());
        assert(lookup(a, "size"@) is None);
    }
}

/// The other tags: bold, italic and underline each set their flag, a font
/// tag sets the font it names (as `font=` or `f=`), and a colour tag whose
/// value (as `color=` or `c=`) reads as a colour sets that colour; each keeps
/// the rest of the style.
pub proof fn lemma_style_tags(st: StyleView, key: Seq<char>, v: Seq<char>)
    ensures
        apply_tag(st, TagKind::Bold, Seq::empty()) == Some(StyleView { bold: true, ..st }),
        apply_tag(st, TagKind::Italic, Seq::empty()) == Some(StyleView { italic: true, ..st }),
        apply_tag(st, TagKind::Underline, Seq::empty()) == Some(StyleView { underline: true, ..st }),
        key == "font"@ || key == "f"@ ==> apply_tag(st, TagKind::Font, seq![(key, v)]) == Some(
            StyleView { font: Some(v), ..st },
        ),
        (key == "color"@ || key == "c"@) && hex_color(v) is Rgba ==> apply_tag(
            st,
            TagKind::Color,
            seq![(key, v)],
        ) == Some(
            StyleView {
                color: Some(
                    (
                        hex_color(v)->Rgba_0,
                        hex_color(v)->Rgba_1,
                        hex_color(v)->Rgba_2,
                        hex_color(v)->Rgba_3,
                    ),
                ),
                ..st
            },
        ),
{
    reveal_strlit("font");
    reveal_strlit("f");
    reveal_strlit("color");
    reveal_strlit("c");
    let a = seq![(key, v)];
    assert(a.drop_last() =~= Seq::<(Seq<char>, Seq<char>)>::empty());
    if key == "f"@ {
        assert(key.len() != "font"@.len());
    }
    if key == "c"@ {
        assert(key.len() != "color"@.len());
    }
}

proof fn lemma_plain_run(
    s: Seq<char>,
    i: int,
    q: int,
    text: Seq<char>,
    stack: Seq<StyleView>,
    spans: Seq<SpanView>,
)
    requires
        0 <= i <= q <= s.len(),
        forall|j: int| i <= j < q ==> s[j] != '<',
    ensures
        content_from(s, i, text, stack, spans) == content_from(
            s,
            q,
            text + s.subrange(i, q),
            stack,
            spans,
        ),
    decreases q - i,
{
    if i < q {
        lemma_plain_run(s, i + 1, q, text.push(s[i]), stack, spans);
        assert(text.push(s[i]) + s.subrange(i + 1, q) =~= text + s.subrange(i, q));
    } else {
        assert(text + s.subrange(i, q) =~= text);
    }
}

/// The text between an opening size tag and the closing tag that ends the
/// markup is one span in the base style with the tag's size appended to its
/// sizes: the size applies to the text inside the tag.
pub proof fn lemma_text_in_size_tag(
    s: Seq<char>,
    base: StyleView,
    key: Seq<char>,
    v: Seq<char>,
    p: int,
    q: int,
    closing: TagKind,
)
    requires
        key == "size"@ || key == "s"@,
        0 < p < q < s.len(),
        s[0] == '<',
        tag_at(s, 0) == Ok::<(TagView, int), MarkupError>((TagView::Open(TagKind::Size, seq![(key, v)]), p)),
        forall|j: int| p <= j < q ==> s[j] != '<',
        s[q] == '<',
        tag_at(s, q) == Ok::<(TagView, int), MarkupError>((TagView::Close(closing), s.len() as int)),
    ensures
        parse_markup(s, base) == MarkupOutcome::Spans(
            seq![(s.subrange(p, q), StyleView { sizes: base.sizes.push(v), ..base })],
        ),
        rich_text_of(s, base) == (
            seq![(s.subrange(p, q), StyleView { sizes: base.sizes.push(v), ..base })],
            false,
        ),
{
    let st1 = StyleView { sizes: base.sizes.push(v), ..base };
    lemma_size_tag_appends(base, key, v);
    let stack0 = seq![base];
    let stack1 = stack0.push(st1);
    assert(stack0.last() == base);
    assert(flush(Seq::empty(), Seq::empty(), base) == Seq::<SpanView>::empty());
    assert(content_from(s, 0, Seq::empty(), stack0, Seq::empty()) == content_from(
        s,
        p,
        Seq::empty(),
        stack1,
        Seq::empty(),
    ));
    lemma_plain_run(s, p, q, Seq::empty(), stack1, Seq::empty());
    let t = s.subrange(p, q);
    assert(Seq::<char>::empty() + t =~= t);
    assert(t.len() > 0);
    assert(stack1.last() == st1);
    let spans2 = seq![(t, st1)];
    assert(flush(Seq::empty(), t, st1) =~= spans2);
    assert(stack1.drop_last() =~= stack0);
    assert(content_from(s, q, t, stack1, Seq::empty()) == content_from(
        s,
        s.len() as int,
        Seq::empty(),
        stack0,
        spans2,
    ));
    assert(parse_markup(s, base) == MarkupOutcome::Spans(spans2));
    assert(s[s.len() - 1] == '>');
    assert(spec_has_markup(s));
}

/// Text without markup parses to one span holding all of it, so its plain
/// text is the text itself.
pub proof fn lemma_plain_text_round_trip(s: Seq<char>, base: StyleView)
    requires
        !spec_has_markup(s),
    ensures
        rich_text_of(s, base) == (seq![(s, base)], true),
        spans_text(rich_text_of(s, base).0) == s,
{
    let sp = seq![(s, base)];
    assert(sp.drop_last() =~= Seq::<SpanView>::empty());
    assert(spans_text(Seq::<SpanView>::empty()) == Seq::<char>::empty());
    assert(spans_text(sp) == spans_text(sp.drop_last()) + sp.last().0);
    assert(Seq::<char>::empty() + s =~= s);
}

/// Markup that fails to parse is kept as one plain span, so no text is lost.
pub proof fn lemma_failed_markup_keeps_text(s: Seq<char>, base: StyleView)
    requires
        spec_has_markup(s),
        parse_markup(s, base) is Failed,
    ensures
        rich_text_of(s, base) == (seq![(s, base)], true),
        spans_text(rich_text_of(s, base).0) == s,
{
    let sp = seq![(s, base)];
    assert(sp.drop_last() =~= Seq::<SpanView>::empty());
    assert(spans_text(Seq::<SpanView>::empty()) == Seq::<char>::empty());
    assert(spans_text(sp) == spans_text(sp.drop_last()) + sp.last().0);
    assert(Seq::<char>::empty() + s =~= s);
}

} // verus!
