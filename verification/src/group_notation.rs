//! Typesetting of GAP's `StructureDescription` notation in TeX math mode.
//!
//! GAP uses an intentionally small grammar: named groups have an adjacent
//! numeric parameter, `x` denotes a direct product, `:` a semidirect product,
//! and `.` an extension.  The conversion keeps the description as written
//! while setting parameters as subscripts and operations as the standard
//! symbols.

use crate::tikz::syntax::{append_chars, chars_of, push_char};
use vstd::prelude::*;
use vstd::string::*;

verus! {

/// An ASCII letter.
pub open spec fn is_letter(c: char) -> bool {
    ('A' <= c && c <= 'Z') || ('a' <= c && c <= 'z')
}

/// An ASCII digit.
pub open spec fn is_digit(c: char) -> bool {
    '0' <= c && c <= '9'
}

/// The end of the run of letters starting at `i`.
pub open spec fn letters_end(s: Seq<char>, i: int) -> int
    decreases s.len() - i,
{
    if 0 <= i < s.len() && is_letter(s[i]) {
        letters_end(s, i + 1)
    } else {
        i
    }
}

/// The end of the run of digits starting at `i`.
pub open spec fn digits_end(s: Seq<char>, i: int) -> int
    decreases s.len() - i,
{
    if 0 <= i < s.len() && is_digit(s[i]) {
        digits_end(s, i + 1)
    } else {
        i
    }
}

proof fn lemma_letters_end(s: Seq<char>, i: int)
    requires
        0 <= i <= s.len(),
    ensures
        i <= letters_end(s, i) <= s.len(),
    decreases s.len() - i,
{
    if i < s.len() && is_letter(s[i]) {
        lemma_letters_end(s, i + 1);
    }
}

proof fn lemma_digits_end(s: Seq<char>, i: int)
    requires
        0 <= i <= s.len(),
    ensures
        i <= digits_end(s, i) <= s.len(),
    decreases s.len() - i,
{
    if i < s.len() && is_digit(s[i]) {
        lemma_digits_end(s, i + 1);
    }
}

/// The TeX for a character that stands for itself or for a fixed symbol.
pub open spec fn symbol_tex(c: char) -> Seq<char> {
    if c == ':' {
        "\\rtimes"@
    } else if c == '.' {
        "\\cdot"@
    } else if c == '\'' {
        "^{\\prime}"@
    } else if c == '_' {
        "\\_"@
    } else if c == '&' {
        "\\&"@
    } else if c == '%' {
        "\\%"@
    } else if c == '#' {
        "\\#"@
    } else if c == '$' {
        "\\$"@
    } else if c == '{' {
        "\\{"@
    } else if c == '}' {
        "\\}"@
    } else if c == '\\' {
        "\\textbackslash{}"@
    } else {
        seq![c]
    }
}

/// `open`, then `inner`, then a closing brace.
pub open spec fn braced(open: Seq<char>, inner: Seq<char>) -> Seq<char> {
    open + inner + seq!['}']
}

/// The TeX for the group name `s[i..e]` and what follows it up to `end`:
/// an `O` may take a `+` or `-` as a superscript, and a run of digits after
/// the name becomes a subscript.
pub open spec fn name_tex(s: Seq<char>, i: int, e: int) -> (Seq<char>, int) {
    let name = s.subrange(i, e);
    let signed = name == seq!['O'] && e < s.len() && (s[e] == '+' || s[e] == '-');
    let sup = if signed {
        braced("^{"@, seq![s[e]])
    } else {
        Seq::empty()
    };
    let after = if signed {
        e + 1
    } else {
        e
    };
    let d = digits_end(s, after);
    let sub = if d > after {
        braced("_{"@, s.subrange(after, d))
    } else {
        Seq::empty()
    };
    (name + sup + sub, d)
}

/// The TeX for the token starting at `i`, and where the next token starts.
pub open spec fn token_tex(s: Seq<char>, i: int) -> (Seq<char>, int) {
    let c = s[i];
    if is_letter(c) {
        let e = letters_end(s, i + 1);
        if e == i + 1 && c == 'x' {
            ("\\times"@, e)
        } else {
            name_tex(s, i, e)
        }
    } else if is_digit(c) {
        let e = digits_end(s, i + 1);
        let number = s.subrange(i, e);
        if e < s.len() && is_letter(s[e]) {
            (braced("{}^{"@, number), e)
        } else {
            (number, e)
        }
    } else if c == '^' {
        let d = digits_end(s, i + 1);
        (braced("^{"@, s.subrange(i + 1, d)), d)
    } else {
        (symbol_tex(c), i + 1)
    }
}

/// Every token ends after it starts and within the text.
proof fn lemma_token_advances(s: Seq<char>, i: int)
    requires
        0 <= i < s.len(),
    ensures
        i < token_tex(s, i).1 <= s.len(),
{
    lemma_letters_end(s, i + 1);
    lemma_digits_end(s, i + 1);
    let e = letters_end(s, i + 1);
    if e < s.len() {
        lemma_digits_end(s, e + 1);
    }
    lemma_digits_end(s, e);
}

/// The TeX for the description from position `i` on.
pub open spec fn tex_from(s: Seq<char>, i: int) -> Seq<char>
    decreases s.len() - i,
{
    if 0 <= i < s.len() {
        let (piece, next) = token_tex(s, i);
        if i < next <= s.len() {
            piece + tex_from(s, next)
        } else {
            Seq::empty()
        }
    } else {
        Seq::empty()
    }
}

/// The whole description in TeX math mode.
pub open spec fn structure_tex(s: Seq<char>) -> Seq<char> {
    seq!['$'] + tex_from(s, 0) + seq!['$']
}

fn is_ascii_letter(c: char) -> (r: bool)
    ensures
        r == is_letter(c),
{
    ('A' <= c && c <= 'Z') || ('a' <= c && c <= 'z')
}

fn is_ascii_digit(c: char) -> (r: bool)
    ensures
        r == is_digit(c),
{
    '0' <= c && c <= '9'
}

/// The end of the run of digits in `chars` starting at `from`.
fn digit_run_end(chars: &Vec<char>, from: usize) -> (r: usize)
    requires
        from <= chars@.len(),
    ensures
        r == digits_end(chars@, from as int),
{
    let mut j = from;
    while j < chars.len() && is_ascii_digit(chars[j])
        invariant
            from <= j <= chars@.len(),
            digits_end(chars@, j as int) == digits_end(chars@, from as int),
        decreases chars@.len() - j,
    {
        j += 1;
    }
    j
}

/// Appends the TeX for the group name `chars[i..e]` and its sign and
/// parameter; returns where the next token starts.
fn append_name(result: &mut String, chars: &Vec<char>, i: usize, e: usize) -> (next: usize)
    requires
        i < e <= chars@.len(),
    ensures
        final(result)@ == old(result)@ + name_tex(chars@, i as int, e as int).0,
        next == name_tex(chars@, i as int, e as int).1,
{
    let ghost s = chars@;
    let n = chars.len();
    append_chars(result, chars, i, e);
    let mut after = e;
    proof {
        if e == i + 1 && s[i as int] == 'O' {
            assert(s.subrange(i as int, e as int) =~= seq!['O']);
        } else if e != i + 1 {
            assert(s.subrange(i as int, e as int).len() != 1);
        } else {
            assert(s.subrange(i as int, e as int)[0] != 'O');
        }
    }
    if e == i + 1 && chars[i] == 'O' && e < n && (chars[e] == '+' || chars[e] == '-') {
        result.append("^{");
        push_char(result, chars[e]);
        push_char(result, '}');
        after = e + 1;
    }
    let d = digit_run_end(chars, after);
    proof {
        lemma_digits_end(s, after as int);
    }
    if d > after {
        result.append("_{");
        append_chars(result, chars, after, d);
        push_char(result, '}');
    }
    proof {
        let (piece, next) = name_tex(s, i as int, e as int);
        assert(final(result)@ =~= old(result)@ + piece);
    }
    d
}

/// Appends the TeX for the token starting at `i`; returns where the next
/// token starts.
fn append_token(result: &mut String, chars: &Vec<char>, i: usize) -> (next: usize)
    requires
        i < chars@.len(),
    ensures
        final(result)@ == old(result)@ + token_tex(chars@, i as int).0,
        next == token_tex(chars@, i as int).1,
{
    let ghost s = chars@;
    let n = chars.len();
    let c = chars[i];
    proof {
        lemma_token_advances(s, i as int);
        lemma_digits_end(s, i + 1);
    }
    if is_ascii_letter(c) {
        let mut e: usize = i + 1;
        while e < n && is_ascii_letter(chars[e])
            invariant
                chars@ == s,
                n == s.len(),
                i < e <= n,
                letters_end(s, e as int) == letters_end(s, i + 1),
            decreases n - e,
        {
            e += 1;
        }
        if e == i + 1 && c == 'x' {
            result.append("\\times");
            e
        } else {
            append_name(result, chars, i, e)
        }
    } else if is_ascii_digit(c) {
        let e = digit_run_end(chars, i + 1);
        if e < n && is_ascii_letter(chars[e]) {
            result.append("{}^{");
            append_chars(result, chars, i, e);
            push_char(result, '}');
            assert(final(result)@ =~= old(result)@ + braced("{}^{"@, s.subrange(i as int, e as int)));
        } else {
            append_chars(result, chars, i, e);
        }
        e
    } else if c == '^' {
        let e = digit_run_end(chars, i + 1);
        result.append("^{");
        append_chars(result, chars, i + 1, e);
        push_char(result, '}');
        assert(final(result)@ =~= old(result)@ + braced("^{"@, s.subrange(i + 1, e as int)));
        e
    } else {
        append_symbol(result, c);
        i + 1
    }
}

/// Appends the TeX for a character that stands for itself or a symbol.
fn append_symbol(result: &mut String, c: char)
    ensures
        final(result)@ == old(result)@ + symbol_tex(c),
{
    if c == ':' {
        result.append("\\rtimes");
    } else if c == '.' {
        result.append("\\cdot");
    } else if c == '\'' {
        result.append("^{\\prime}");
    } else if c == '_' {
        result.append("\\_");
    } else if c == '&' {
        result.append("\\&");
    } else if c == '%' {
        result.append("\\%");
    } else if c == '#' {
        result.append("\\#");
    } else if c == '$' {
        result.append("\\$");
    } else if c == '{' {
        result.append("\\{");
    } else if c == '}' {
        result.append("\\}");
    } else if c == '\\' {
        result.append("\\textbackslash{}");
    } else {
        push_char(result, c);
        assert(final(result)@ =~= old(result)@ + seq![c]);
    }
}

/// Converts GAP's `StructureDescription` notation to TeX math mode: group
/// parameters become subscripts, `x` becomes `\times`, `:` `\rtimes`, `.`
/// `\cdot`, a prime `^{\prime}`, an exponent `^{..}`, a number before a
/// name a left superscript, and TeX specials are escaped.
pub fn structure_description_to_tex(description: &str) -> (r: String)
    ensures
        r@ == structure_tex(description@),
{
    let ghost s = description@;
    let chars = chars_of(description);
    let n = chars.len();
    let mut result = String::new();
    push_char(&mut result, '$');
    let mut i: usize = 0;
    while i < n
        invariant
            chars@ == s,
            n == s.len(),
            i <= n,
            result@ + tex_from(s, i as int) == seq!['$'] + tex_from(s, 0),
        decreases n - i,
    {
        proof {
            lemma_token_advances(s, i as int);
        }
        let ghost before = result@;
        let next = append_token(&mut result, &chars, i);
        proof {
            let piece = token_tex(s, i as int).0;
            assert(tex_from(s, i as int) == piece + tex_from(s, next as int));
            assert(result@ + tex_from(s, next as int) =~= before + tex_from(s, i as int));
        }
        i = next;
    }
    push_char(&mut result, '$');
    assert(result@ =~= structure_tex(s));
    result
}

} // verus!
