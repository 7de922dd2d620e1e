//! The text-level parts of TikZ syntax: option lists, labels, escaping,
//! drawing commands and raw source lines.
//!
//! Every renderer here is specified over sequences of characters, so what a
//! picture prints is stated exactly.

use vstd::prelude::*;
use vstd::string::*;

verus! {

/// Appends one character (`String::push`).
#[verifier::external_body]
pub(crate) fn push_char(s: &mut String, c: char)
    ensures
        final(s)@ == old(s)@.push(c),
{
    s.push(c);
}

/// The characters of a string, in order.
pub(crate) fn chars_of(s: &str) -> (r: Vec<char>)
    ensures
        r@ == s@,
{
    broadcast use vstd::string::group_string_axioms;

    let mut v: Vec<char> = Vec::new();
    for c in it: s.chars()
        invariant
            v@ == it.seq().take(it.index()),
    {
        proof {
            assert(it.seq().take(it.index() + 1) =~= it.seq().take(it.index()).push(c));
        }
        v.push(c);
    }
    assert(v@ =~= s@);
    v
}

/// `parts` separated by `sep`.
pub open spec fn join_with(parts: Seq<Seq<char>>, sep: Seq<char>) -> Seq<char>
    decreases parts.len(),
{
    if parts.len() == 0 {
        Seq::empty()
    } else if parts.len() == 1 {
        parts[0]
    } else {
        join_with(parts.drop_last(), sep) + sep + parts.last()
    }
}

/// A comma-separated list of TikZ options.
///
/// The same representation is used for picture options, node options, path
/// options, and style bodies.
#[derive(Debug, Clone, PartialEq, Eq)]
pub struct TikzOptions {
    entries: Vec<String>,
}

impl View for TikzOptions {
    type V = Seq<Seq<char>>;

    closed spec fn view(&self) -> Seq<Seq<char>> {
        self.entries@.map_values(|e: String| e@)
    }
}

impl Default for TikzOptions {
    fn default() -> (r: Self)
        ensures
            r@ == Seq::<Seq<char>>::empty(),
    {
        TikzOptions { entries: Vec::new() }
    }
}

impl TikzOptions {
    /// Constructs a TikZ option list from strings.
    pub fn new(entries: Vec<String>) -> (r: Self)
        ensures
            r@ == entries@.map_values(|e: String| e@),
    {
        TikzOptions { entries }
    }

    /// Appends one option.
    pub fn push(&mut self, entry: String)
        ensures
            final(self)@ == old(self)@.push(entry@),
    {
        self.entries.push(entry);
        assert(self@ =~= old(self)@.push(entry@));
    }

    /// Appends several options.
    pub fn extend(&mut self, entries: Vec<String>)
        ensures
            final(self)@ == old(self)@ + entries@.map_values(|e: String| e@),
    {
        let mut entries = entries;
        let ghost added = entries@;
        self.entries.append(&mut entries);
        assert(self@ =~= old(self)@ + added.map_values(|e: String| e@));
    }

    /// Returns whether the option list is empty.
    pub fn is_empty(&self) -> (r: bool)
        ensures
            r == (self@.len() == 0),
    {
        self.entries.len() == 0
    }

    /// The option entries, in order.
    pub fn iter(&self) -> (r: &[String])
        ensures
            r@.map_values(|e: String| e@) == self@,
    {
        self.entries.as_slice()
    }

    /// Renders the comma-separated option body, without brackets or braces.
    pub fn render_inner(&self) -> (r: String)
        ensures
            r@ == join_with(self@, ", "@),
    {
        let mut out = String::new();
        let mut i: usize = 0;
        while i < self.entries.len()
            invariant
                i <= self@.len(),
                self@.len() == self.entries@.len(),
                out@ == join_with(self@.take(i as int), ", "@),
            decreases self@.len() - i,
        {
            if i > 0 {
                out.append(", ");
            }
            out.append(self.entries[i].as_str());
            proof {
                assert(self@.take(i + 1).drop_last() =~= self@.take(i as int));
                assert(self@[i as int] == self.entries@[i as int]@);
                if i == 0 {
                    assert(self@.take(1) =~= seq![self@[0]]);
                }
            }
            i += 1;
        }
        assert(self@.take(self@.len() as int) =~= self@);
        out
    }

    /// Renders the options in TikZ square-bracket syntax: empty lists render
    /// as the empty string.
    pub fn render_brackets(&self) -> (r: String)
        ensures
            r@ == if self@.len() == 0 {
                Seq::empty()
            } else {
                "["@ + join_with(self@, ", "@) + "]"@
            },
    {
        if self.is_empty() {
            String::new()
        } else {
            let mut out = String::from_str("[");
            let inner = self.render_inner();
            out.append(inner.as_str());
            out.append("]");
            out
        }
    }

    /// Renders the options in TikZ brace syntax.
    pub fn render_braces(&self) -> (r: String)
        ensures
            r@ == "{"@ + join_with(self@, ", "@) + "}"@,
    {
        let mut out = String::from_str("{");
        let inner = self.render_inner();
        out.append(inner.as_str());
        out.append("}");
        out
    }
}

/// A named TikZ style declaration.
#[derive(Debug, Clone, PartialEq, Eq)]
pub struct TikzStyle {
    /// The style name.
    pub name: String,
    /// The style body.
    pub options: TikzOptions,
}

/// How one character of plain text is written in TeX.
pub open spec fn escape_char(c: char) -> Seq<char> {
    if c == '\\' {
        "\\textbackslash{}"@
    } else if c == '{' {
        "\\{"@
    } else if c == '}' {
        "\\}"@
    } else if c == '$' {
        "\\$"@
    } else if c == '&' {
        "\\&"@
    } else if c == '%' {
        "\\%"@
    } else if c == '#' {
        "\\#"@
    } else if c == '_' {
        "\\_"@
    } else if c == '^' {
        "\\^{}"@
    } else if c == '~' {
        "\\~{}"@
    } else {
        seq![c]
    }
}

/// Plain text with every TeX special character escaped.
pub open spec fn escape_seq(s: Seq<char>) -> Seq<char>
    decreases s.len(),
{
    if s.len() == 0 {
        Seq::empty()
    } else {
        escape_seq(s.drop_last()) + escape_char(s.last())
    }
}

/// Escapes TeX special characters in a plain-text label.
pub fn escape_tikz(input: &str) -> (r: String)
    ensures
        r@ == escape_seq(input@),
{
    let chars = chars_of(input);
    let mut escaped = String::new();
    let mut i: usize = 0;
    while i < chars.len()
        invariant
            chars@ == input@,
            i <= chars@.len(),
            escaped@ == escape_seq(input@.take(i as int)),
        decreases chars@.len() - i,
    {
        let ch = chars[i];
        if ch == '\\' {
            escaped.append("\\textbackslash{}");
        } else if ch == '{' {
            escaped.append("\\{");
        } else if ch == '}' {
            escaped.append("\\}");
        } else if ch == '$' {
            escaped.append("\\$");
        } else if ch == '&' {
            escaped.append("\\&");
        } else if ch == '%' {
            escaped.append("\\%");
        } else if ch == '#' {
            escaped.append("\\#");
        } else if ch == '_' {
            escaped.append("\\_");
        } else if ch == '^' {
            escaped.append("\\^{}");
        } else if ch == '~' {
            escaped.append("\\~{}");
        } else {
            push_char(&mut escaped, ch);
        }
        proof {
            assert(input@.take(i + 1).drop_last() =~= input@.take(i as int));
        }
        i += 1;
    }
    assert(input@.take(chars@.len() as int) =~= input@);
    escaped
}

/// Text to place inside a TikZ node: escaped plain text or raw TeX/TikZ
/// markup.
#[derive(Debug, Clone, PartialEq, Eq)]
pub struct TikzLabel(String);

impl View for TikzLabel {
    type V = Seq<char>;

    closed spec fn view(&self) -> Seq<char> {
        self.0@
    }
}

impl TikzLabel {
    /// Constructs a label by escaping TeX special characters.
    pub fn escaped(label: &str) -> (r: Self)
        ensures
            r@ == escape_seq(label@),
    {
        TikzLabel(escape_tikz(label))
    }

    /// Constructs a label from raw TeX/TikZ markup.
    pub fn raw(label: String) -> (r: Self)
        ensures
            r@ == label@,
    {
        TikzLabel(label)
    }

    /// The markup placed inside the node.
    pub fn render(&self) -> (r: &str)
        ensures
            r@ == self@,
    {
        self.0.as_str()
    }
}

/// The syntax used to connect two coordinates in a path.
#[derive(Debug, Clone, Copy, PartialEq, Eq, Structural)]
pub enum TikzPathOperation {
    /// A straight `--` path.
    Line,
    /// A TikZ `to` path, useful for bends.
    To,
}

/// The drawing command used for a circle.
#[derive(Debug, Clone, Copy, PartialEq, Eq, Structural)]
pub enum TikzDrawCommand {
    /// A `\draw` command.
    Draw,
    /// A `\fill` command.
    Fill,
    /// A `\filldraw` command.
    FillDraw,
}

impl TikzDrawCommand {
    /// The name of the command, without its backslash.
    pub fn render(self) -> (r: &'static str)
        ensures
            r@ == match self {
                TikzDrawCommand::Draw => "draw"@,
                TikzDrawCommand::Fill => "fill"@,
                TikzDrawCommand::FillDraw => "filldraw"@,
            },
    {
        match self {
            TikzDrawCommand::Draw => "draw",
            TikzDrawCommand::Fill => "fill",
            TikzDrawCommand::FillDraw => "filldraw",
        }
    }
}

/// The index of the first line feed at or after `i`, or the length of `s`.
pub open spec fn next_line_feed(s: Seq<char>, i: int) -> int
    decreases s.len() - i,
{
    if i >= s.len() {
        s.len() as int
    } else if s[i] == '\n' {
        i
    } else {
        next_line_feed(s, i + 1)
    }
}

/// A line without the carriage return that ends it, if any.
pub open spec fn strip_carriage_return(line: Seq<char>) -> Seq<char> {
    if line.len() > 0 && line.last() == '\r' {
        line.drop_last()
    } else {
        line
    }
}

/// The lines of `s` from position `i` on, as `str::lines` yields them: split
/// at line feeds, with a carriage return before a line feed dropped and no
/// empty line after a final line feed.
pub open spec fn lines_from(s: Seq<char>, i: int) -> Seq<Seq<char>>
    decreases s.len() - i,
{
    if i < 0 || i >= s.len() {
        Seq::empty()
    } else {
        let j = next_line_feed(s, i);
        proof {
            lemma_next_line_feed(s, i);
        }
        if j >= s.len() {
            seq![s.subrange(i, s.len() as int)]
        } else {
            seq![strip_carriage_return(s.subrange(i, j))] + lines_from(s, j + 1)
        }
    }
}

/// `indent` spaces.
pub open spec fn spaces(indent: nat) -> Seq<char> {
    Seq::new(indent, |k: int| ' ')
}

/// Each line, indented and terminated by a line feed.
pub open spec fn indented_lines(lines: Seq<Seq<char>>, indent: nat) -> Seq<char>
    decreases lines.len(),
{
    if lines.len() == 0 {
        Seq::empty()
    } else {
        indented_lines(lines.drop_last(), indent) + spaces(indent) + lines.last() + seq!['\n']
    }
}

/// The next line feed lies at or after `i`, and nothing before it is one.
pub proof fn lemma_next_line_feed(s: Seq<char>, i: int)
    requires
        0 <= i <= s.len(),
    ensures
        i <= next_line_feed(s, i) <= s.len(),
        next_line_feed(s, i) < s.len() ==> s[next_line_feed(s, i)] == '\n',
        forall|k: int| i <= k < next_line_feed(s, i) ==> s[k] != '\n',
    decreases s.len() - i,
{
    if i < s.len() && s[i] != '\n' {
        lemma_next_line_feed(s, i + 1);
    }
}

proof fn lemma_indented_lines_push(lines: Seq<Seq<char>>, line: Seq<char>, indent: nat)
    ensures
        indented_lines(lines.push(line), indent) == indented_lines(lines, indent) + spaces(indent) + line + seq!['\n'],
{
    assert(lines.push(line).drop_last() =~= lines);
}

/// Appends `chars[from..to]` to `out`.
pub(crate) fn append_chars(out: &mut String, chars: &Vec<char>, from: usize, to: usize)
    requires
        from <= to <= chars@.len(),
    ensures
        final(out)@ == old(out)@ + chars@.subrange(from as int, to as int),
{
    let ghost start = old(out)@;
    let mut k = from;
    while k < to
        invariant
            from <= k <= to,
            to <= chars@.len(),
            out@ == start + chars@.subrange(from as int, k as int),
        decreases to - k,
    {
        push_char(out, chars[k]);
        proof {
            assert(chars@.subrange(from as int, k + 1) =~= chars@.subrange(from as int, k as int).push(chars@[k as int]));
        }
        k += 1;
    }
}

/// Appends each line of `raw`, indented by `indent` spaces and terminated by
/// a line feed.
pub fn render_raw_into(raw: &str, out: &mut String, indent: usize)
    ensures
        final(out)@ == old(out)@ + indented_lines(lines_from(raw@, 0), indent as nat),
{
    let chars = chars_of(raw);
    let n = chars.len();
    let ghost s = raw@;
    let ghost start = old(out)@;
    let ghost mut done: Seq<Seq<char>> = Seq::empty();
    let mut i: usize = 0;
    while i < n
        invariant
            chars@ == s,
            n == s.len(),
            i <= n,
            lines_from(s, 0) == done + lines_from(s, i as int),
            out@ == start + indented_lines(done, indent as nat),
        decreases n - i,
    {
        let mut j = i;
        while j < n && chars[j] != '\n'
            invariant
                chars@ == s,
                n == s.len(),
                i <= j <= n,
                next_line_feed(s, i as int) == next_line_feed(s, j as int),
            decreases n - j,
        {
            j += 1;
        }
        let mut end = j;
        if j < n && end > i && chars[end - 1] == '\r' {
            end = end - 1;
        }
        let mut p: usize = 0;
        while p < indent
            invariant
                p <= indent,
                out@ == start + indented_lines(done, indent as nat) + spaces(p as nat),
            decreases indent - p,
        {
            push_char(out, ' ');
            proof {
                assert(spaces((p + 1) as nat) =~= spaces(p as nat).push(' '));
            }
            p += 1;
        }
        append_chars(out, &chars, i, end);
        push_char(out, '\n');
        proof {
            let line = s.subrange(i as int, end as int);
            if j < n {
                let whole = s.subrange(i as int, j as int);
                if end < j {
                    assert(whole.drop_last() =~= line);
                } else {
                    assert(whole =~= line);
                }
                assert(line == strip_carriage_return(whole));
            } else {
                assert(line == s.subrange(i as int, s.len() as int));
            }
            assert(lines_from(s, i as int) == seq![line] + lines_from(s, (j + 1) as int));
            assert(done + lines_from(s, i as int) =~= done.push(line) + lines_from(s, (j + 1) as int));
            lemma_indented_lines_push(done, line, indent as nat);
            done = done.push(line);
        }
        i = if j < n { j + 1 } else { n };
    }
    assert(lines_from(s, n as int) =~= Seq::<Seq<char>>::empty());
    assert(done + Seq::<Seq<char>>::empty() =~= done);
}

} // verus!
