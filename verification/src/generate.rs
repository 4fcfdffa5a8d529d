//! Rendering a byte buffer as a source-code array literal for a selected
//! target language, with fixed sixteen-per-line wrapping.

use vstd::prelude::*;

use crate::digits::{lemma_div_succ, lemma_num_text_no_newline, num_text, push_number};
use crate::text::{
    lemma_newline_count_concat, lemma_newline_count_none, lemma_newline_count_single, lower_seq,
    newline_count, push_char, str_eq_lower,
};
use vstd::string::StringExecFns;

verus! {

/// A renderer that turns a byte buffer into one output string.
pub trait Render {
    /// The exact text this renderer produces for the given bytes.
    spec fn render_spec(&self, data: Seq<u8>) -> Seq<char>;

    /// Renders the byte buffer.
    fn render(&self, data: &[u8]) -> (r: String)
        ensures
            r@ == self.render_spec(data@),
    ;
}

/// The target languages a template exists for; an unrecognized name maps to
/// `Unknown`, which renders with empty prefix and suffix.
#[derive(Debug, PartialEq, Eq, Structural, Clone, Copy)]
pub enum Language {
    C,
    Cpp,
    Rust,
    Python,
    Unknown,
}

impl Language {
    /// The language a name selects, compared without regard to ASCII case;
    /// every unrecognized name selects `Unknown`.
    pub open spec fn of_name(s: Seq<char>) -> Language {
        if lower_seq(s) == "c"@ {
            Language::C
        } else if lower_seq(s) == "cpp"@ {
            Language::Cpp
        } else if lower_seq(s) == "rust"@ {
            Language::Rust
        } else if lower_seq(s) == "python"@ {
            Language::Python
        } else {
            Language::Unknown
        }
    }
}

impl<'a> From<&'a str> for Language {
    fn from(other: &'a str) -> (r: Language) {
        if str_eq_lower(other, "c") {
            Language::C
        } else if str_eq_lower(other, "cpp") {
            Language::Cpp
        } else if str_eq_lower(other, "rust") {
            Language::Rust
        } else if str_eq_lower(other, "python") {
            Language::Python
        } else {
            Language::Unknown
        }
    }
}

impl<'a> vstd::std_specs::convert::FromSpecImpl<&'a str> for Language {
    open spec fn obeys_from_spec() -> bool {
        true
    }

    open spec fn from_spec(v: &'a str) -> Language {
        Language::of_name(v@)
    }
}

/// The array-literal prefix of a language.
pub open spec fn prefix_of(lang: Language) -> Seq<char> {
    match lang {
        Language::C => "const char data[] = {"@,
        Language::Cpp => "const char data[] = {"@,
        Language::Rust => "let data = ["@,
        Language::Python => "data = ["@,
        Language::Unknown => ""@,
    }
}

/// The element separator of a language.
pub open spec fn separator_of(lang: Language) -> Seq<char> {
    match lang {
        Language::C => ","@,
        Language::Cpp => ","@,
        Language::Rust => ","@,
        Language::Python => ","@,
        Language::Unknown => ","@,
    }
}

/// The array-literal suffix of a language.
pub open spec fn suffix_of(lang: Language) -> Seq<char> {
    match lang {
        Language::C => "};"@,
        Language::Cpp => "};"@,
        Language::Rust => "];"@,
        Language::Python => "]"@,
        Language::Unknown => ""@,
    }
}

/// The strings framing one source-array literal: prefix, element separator
/// and suffix, with wrapping fixed at sixteen bytes per line.
#[derive(Debug)]
pub struct Template {
    pub prefix: String,
    pub separator: String,
    pub suffix: String,
    pub bytes_per_line: usize,
}

impl Template {
    /// The template of the selected language.
    pub fn new(lang: Language) -> (t: Template)
        ensures
            t.prefix@ == prefix_of(lang),
            t.separator@ == separator_of(lang),
            t.suffix@ == suffix_of(lang),
            t.bytes_per_line == 16,
    {
        match lang {
            Language::C => Template {
                prefix: "const char data[] = {".to_owned(),
                separator: ",".to_owned(),
                suffix: "};".to_owned(),
                bytes_per_line: 16,
            },
            Language::Cpp => Template {
                prefix: "const char data[] = {".to_owned(),
                separator: ",".to_owned(),
                suffix: "};".to_owned(),
                bytes_per_line: 16,
            },
            Language::Rust => Template {
                prefix: "let data = [".to_owned(),
                separator: ",".to_owned(),
                suffix: "];".to_owned(),
                bytes_per_line: 16,
            },
            Language::Python => Template {
                prefix: "data = [".to_owned(),
                separator: ",".to_owned(),
                suffix: "]".to_owned(),
                bytes_per_line: 16,
            },
            Language::Unknown => Template {
                prefix: "".to_owned(),
                separator: ",".to_owned(),
                suffix: "".to_owned(),
                bytes_per_line: 16,
            },
        }
    }
}

/// One byte as a hexadecimal source literal: `0x` and two upper-case
/// digits.
pub open spec fn hex_literal(b: u8) -> Seq<char> {
    "0x"@ + num_text(b as nat, 16, true, 2)
}

/// The rendered array elements from position `i` on: each byte as a hex
/// literal, the separator and a space between elements, and — in long mode —
/// a four-space indent before each group of sixteen and a line break after
/// it in place of the space.
pub open spec fn elements_text(data: Seq<u8>, sep: Seq<char>, i: nat, long: bool) -> Seq<char>
    decreases data.len() - i,
    when i <= data.len()
{
    if i == data.len() {
        Seq::<char>::empty()
    } else {
        (if long && i % 16 == 0 {
            "    "@
        } else {
            Seq::<char>::empty()
        }) + hex_literal(data[i as int]) + (if i + 1 == data.len() {
            Seq::<char>::empty()
        } else if long && (i + 1) % 16 == 0 {
            sep + seq!['\n']
        } else {
            sep + seq![' ']
        }) + elements_text(data, sep, i + 1, long)
    }
}

/// The full literal: on one line behind the prefix for up to sixteen bytes,
/// wrapped onto indented lines between the prefix and suffix otherwise.
pub open spec fn template_text(t: Template, data: Seq<u8>) -> Seq<char> {
    if data.len() <= 16 {
        t.prefix@ + seq![' '] + elements_text(data, t.separator@, 0, false) + seq![' ']
            + t.suffix@
    } else {
        t.prefix@ + seq!['\n'] + elements_text(data, t.separator@, 0, true) + seq!['\n']
            + t.suffix@
    }
}

/// Appends the rendered array elements to `out`.
fn push_elements(out: &mut String, data: &[u8], separator: &str, long: bool)
    ensures
        final(out)@ == old(out)@ + elements_text(data@, separator@, 0, long),
{
    let n = data.len();
    let mut i: usize = 0;
    while i < n
        invariant
            n == data@.len(),
            i <= n,
            old(out)@ + elements_text(data@, separator@, 0, long) == out@ + elements_text(
                data@,
                separator@,
                i as nat,
                long,
            ),
        decreases n - i,
    {
        let ghost entry = out@;
        if long && i % 16 == 0 {
            out.append("    ");
        }
        out.append("0x");
        push_number(out, data[i] as usize, 16, true, 2);
        if i + 1 == n {
        } else if long && (i + 1) % 16 == 0 {
            out.append(separator);
            push_char(out, '\n');
        } else {
            out.append(separator);
            push_char(out, ' ');
        }
        proof {
            let piece = (if long && (i as nat) % 16 == 0 {
                "    "@
            } else {
                Seq::<char>::empty()
            }) + hex_literal(data@[i as int]) + (if i + 1 == data@.len() {
                Seq::<char>::empty()
            } else if long && ((i as nat) + 1) % 16 == 0 {
                separator@ + seq!['\n']
            } else {
                separator@ + seq![' ']
            });
            assert(out@ =~= entry + piece);
            assert(elements_text(data@, separator@, i as nat, long) =~= piece + elements_text(
                data@,
                separator@,
                (i + 1) as nat,
                long,
            ));
            assert(old(out)@ + elements_text(data@, separator@, 0, long) =~= out@
                + elements_text(data@, separator@, (i + 1) as nat, long));
        }
        i = i + 1;
    }
    proof {
        assert(elements_text(data@, separator@, n as nat, long) =~= Seq::<char>::empty());
        assert(out@ =~= old(out)@ + elements_text(data@, separator@, 0, long));
    }
}

impl Render for Template {
    open spec fn render_spec(&self, data: Seq<u8>) -> Seq<char> {
        template_text(*self, data)
    }

    fn render(&self, data: &[u8]) -> (r: String) {
        let mut output = String::new();
        output.append(self.prefix.as_str());
        if data.len() <= 16 {
            push_char(&mut output, ' ');
            push_elements(&mut output, data, self.separator.as_str(), false);
            push_char(&mut output, ' ');
            output.append(self.suffix.as_str());
        } else {
            push_char(&mut output, '\n');
            push_elements(&mut output, data, self.separator.as_str(), true);
            push_char(&mut output, '\n');
            output.append(self.suffix.as_str());
        }
        proof {
            assert(output@ =~= template_text(*self, data@));
        }
        output
    }
}

proof fn lemma_hex_literal_no_newline(b: u8)
    ensures
        forall|i: int| 0 <= i < hex_literal(b).len() ==> hex_literal(b)[i] != '\n',
{
    reveal_strlit("0x");
    lemma_num_text_no_newline(b as nat, 16, true, 2);
    let nt = num_text(b as nat, 16, true, 2);
    assert forall|i: int| 0 <= i < hex_literal(b).len() implies hex_literal(b)[i] != '\n' by {
        if i < 2 {
            assert(hex_literal(b)[i] == "0x"@[i]);
        } else {
            assert(hex_literal(b)[i] == nt[i - 2]);
        }
    }
}

/// In short mode the rendered elements hold no line break; in long mode
/// they break after every completed group of sixteen except behind the last
/// element.
proof fn lemma_elements_newline_count(data: Seq<u8>, sep: Seq<char>, i: nat, long: bool)
    requires
        newline_count(sep) == 0,
        i <= data.len(),
    ensures
        !long ==> newline_count(elements_text(data, sep, i, long)) == 0,
        i == data.len() ==> newline_count(elements_text(data, sep, i, long)) == 0,
        long && i < data.len() ==> newline_count(elements_text(data, sep, i, long)) as int == (
        data.len() - 1) as int / 16 - (i as int) / 16,
    decreases data.len() - i,
{
    if i < data.len() {
        let indent = if long && i % 16 == 0 {
            "    "@
        } else {
            Seq::<char>::empty()
        };
        let hex = hex_literal(data[i as int]);
        let tail = if i + 1 == data.len() {
            Seq::<char>::empty()
        } else if long && (i + 1) % 16 == 0 {
            sep + seq!['\n']
        } else {
            sep + seq![' ']
        };
        let rest = elements_text(data, sep, i + 1, long);
        reveal_strlit("    ");
        assert forall|j: int| 0 <= j < indent.len() implies indent[j] != '\n' by {
            assert(indent[j] == "    "@[j]);
        }
        lemma_newline_count_none(indent);
        lemma_hex_literal_no_newline(data[i as int]);
        lemma_newline_count_none(hex);
        lemma_newline_count_single('\n');
        lemma_newline_count_single(' ');
        lemma_newline_count_concat(sep, seq!['\n']);
        lemma_newline_count_concat(sep, seq![' ']);
        lemma_newline_count_concat(indent, hex);
        lemma_newline_count_concat(indent + hex, tail);
        lemma_newline_count_concat(indent + hex + tail, rest);
        lemma_elements_newline_count(data, sep, i + 1, long);
        if long {
            lemma_div_succ(i, 16);
            if i + 1 == data.len() {
                vstd::arithmetic::div_mod::lemma_div_is_ordered(
                    i as int,
                    (data.len() - 1) as int,
                    16,
                );
            }
        }
    }
}

/// The wrapping law: up to sixteen bytes render on a single line; above
/// that, the output breaks onto one indented line per begun group of
/// sixteen, framed by a line break after the prefix and one before the
/// suffix.
pub proof fn lemma_template_line_count(t: Template, data: Seq<u8>)
    requires
        newline_count(t.prefix@) == 0,
        newline_count(t.separator@) == 0,
        newline_count(t.suffix@) == 0,
    ensures
        data.len() <= 16 ==> newline_count(template_text(t, data)) == 0,
        data.len() > 16 ==> newline_count(template_text(t, data)) as int == 2 + (data.len()
            - 1) as int / 16,
{
    lemma_newline_count_single('\n');
    lemma_newline_count_single(' ');
    lemma_elements_newline_count(data, t.separator@, 0, data.len() > 16);
    if data.len() <= 16 {
        let els = elements_text(data, t.separator@, 0, false);
        lemma_newline_count_concat(t.prefix@, seq![' ']);
        lemma_newline_count_concat(t.prefix@ + seq![' '], els);
        lemma_newline_count_concat(t.prefix@ + seq![' '] + els, seq![' ']);
        lemma_newline_count_concat(t.prefix@ + seq![' '] + els + seq![' '], t.suffix@);
    } else {
        let els = elements_text(data, t.separator@, 0, true);
        vstd::arithmetic::div_mod::lemma_fundamental_div_mod_converse(0, 16, 0, 0);
        lemma_newline_count_concat(t.prefix@, seq!['\n']);
        lemma_newline_count_concat(t.prefix@ + seq!['\n'], els);
        lemma_newline_count_concat(t.prefix@ + seq!['\n'] + els, seq!['\n']);
        lemma_newline_count_concat(t.prefix@ + seq!['\n'] + els + seq!['\n'], t.suffix@);
    }
}

/// Every built-in language template frames the literal with strings free of
/// line breaks, so the wrapping law applies to each of them.
pub proof fn lemma_language_template_strings(lang: Language)
    ensures
        newline_count(prefix_of(lang)) == 0,
        newline_count(separator_of(lang)) == 0,
        newline_count(suffix_of(lang)) == 0,
{
    reveal_strlit("const char data[] = {");
    reveal_strlit("let data = [");
    reveal_strlit("data = [");
    reveal_strlit("};");
    reveal_strlit("];");
    reveal_strlit("]");
    reveal_strlit(",");
    reveal_strlit("");
    lemma_newline_count_none(prefix_of(lang));
    lemma_newline_count_none(separator_of(lang));
    lemma_newline_count_none(suffix_of(lang));
}

} // verus!
