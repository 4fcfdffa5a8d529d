//! Dump-line rendering and the streaming dump driver: turns byte sequences
//! into formatted lines showing an address, grouped byte values in a
//! selectable numeric base, and a printable-character interpretation column.

use vstd::prelude::*;

use crate::digits::{
    lemma_div_succ, lemma_num_digits_le, lemma_num_text_len, num_text, push_number,
};
use crate::text::{
    char_repeat, lemma_newline_count_concat, lemma_newline_count_none, lemma_newline_count_single,
    newline_count, push_char, push_spaces, str_eq,
};
use vstd::arithmetic::div_mod::{
    lemma_div_by_multiple, lemma_div_is_ordered, lemma_fundamental_div_mod,
    lemma_fundamental_div_mod_converse, lemma_mod_division_less_than_divisor,
};
use vstd::arithmetic::power::pow;
use vstd::string::StringExecFns;

verus! {

/// All value formats supported when dumping bytes.
#[derive(Debug, PartialEq, Eq, Structural, Clone, Copy)]
pub enum Format {
    HexUpperCase,
    Hex,
    Decimal,
    Octal,
    Binary,
}

/// The failures of the dump engine: an unrecognized format token, or an
/// input/output failure reported by the surrounding reader or writer layer.
#[derive(Debug, PartialEq, Eq, Structural, Clone, Copy)]
pub enum DumpError {
    InvalidFormat,
    SinkWriteFailure,
    SourceReadFailure,
}

impl Format {
    /// The number of characters one byte takes in this format.
    pub open spec fn digit_width_spec(self) -> nat {
        match self {
            Format::HexUpperCase => 2,
            Format::Hex => 2,
            Format::Decimal => 3,
            Format::Octal => 3,
            Format::Binary => 8,
        }
    }

    /// The numeric base of this format.
    pub open spec fn base_spec(self) -> nat {
        match self {
            Format::HexUpperCase => 16,
            Format::Hex => 16,
            Format::Decimal => 10,
            Format::Octal => 8,
            Format::Binary => 2,
        }
    }

    /// Whether digits above nine use upper-case letters.
    pub open spec fn upper_spec(self) -> bool {
        self is HexUpperCase
    }

    /// The format a token selects: `Hex`, `hex`, `dec`, `oct` or `bin`;
    /// every other token is rejected.
    pub open spec fn of_token(s: Seq<char>) -> Result<Format, DumpError> {
        if s == "Hex"@ {
            Ok(Format::HexUpperCase)
        } else if s == "hex"@ {
            Ok(Format::Hex)
        } else if s == "dec"@ {
            Ok(Format::Decimal)
        } else if s == "oct"@ {
            Ok(Format::Octal)
        } else if s == "bin"@ {
            Ok(Format::Binary)
        } else {
            Err(DumpError::InvalidFormat)
        }
    }

    /// The number of characters one byte takes in this format.
    pub fn digit_width(&self) -> (w: usize)
        ensures
            w == self.digit_width_spec(),
    {
        match self {
            Format::HexUpperCase => 2,
            Format::Hex => 2,
            Format::Decimal => 3,
            Format::Octal => 3,
            Format::Binary => 8,
        }
    }

    /// Resolves a format token; unrecognized tokens are an `InvalidFormat`
    /// error rather than a silent fallback.
    pub fn parse(s: &str) -> (r: Result<Format, DumpError>)
        ensures
            r == Format::of_token(s@),
    {
        if str_eq(s, "Hex") {
            Ok(Format::HexUpperCase)
        } else if str_eq(s, "hex") {
            Ok(Format::Hex)
        } else if str_eq(s, "dec") {
            Ok(Format::Decimal)
        } else if str_eq(s, "oct") {
            Ok(Format::Octal)
        } else if str_eq(s, "bin") {
            Ok(Format::Binary)
        } else {
            Err(DumpError::InvalidFormat)
        }
    }
}

/// How one output line looks: numeric base, grouping, column count, address
/// visibility, separator visibility, interpretation visibility, and the
/// address printed for the line's first byte.
#[derive(Debug, Clone, Copy)]
pub struct Config {
    pub start_address: usize,
    pub show_address: bool,
    pub group_size: usize,
    pub columns: usize,
    pub show_interpretation: bool,
    pub use_separator: bool,
    pub output_fmt: Format,
}

impl Config {
    /// The default settings: upper-case hex, eight columns of one byte,
    /// address and interpretation shown, starting at address zero.
    pub open spec fn default_spec() -> Config {
        Config {
            start_address: 0,
            show_address: true,
            group_size: 1,
            columns: 8,
            show_interpretation: true,
            use_separator: true,
            output_fmt: Format::HexUpperCase,
        }
    }

    /// The settings under which a line can be rendered: at least one column
    /// of at least one byte, and a full line's width fits the machine.
    pub open spec fn wf(self) -> bool {
        &&& self.group_size >= 1
        &&& self.columns >= 1
        &&& self.columns * self.group_size * self.output_fmt.digit_width_spec() + self.columns
            <= usize::MAX
    }

    pub open spec fn spec_bytes_per_line(self) -> nat {
        (self.columns * self.group_size) as nat
    }

    /// The same settings with the line address moved forward by `k` bytes.
    pub open spec fn spec_advance(self, k: nat) -> Config {
        Config { start_address: (self.start_address + k) as usize, ..self }
    }

    pub fn new() -> (c: Config)
        ensures
            c == Config::default_spec(),
    {
        Config {
            start_address: 0,
            show_address: true,
            group_size: 1,
            columns: 8,
            show_interpretation: true,
            use_separator: true,
            output_fmt: Format::HexUpperCase,
        }
    }

    /// How many bytes one full line holds.
    pub fn bytes_per_line(&self) -> (r: usize)
        requires
            self.columns * self.group_size <= usize::MAX,
        ensures
            r == self.spec_bytes_per_line(),
    {
        self.columns * self.group_size
    }

    pub fn start_address(&self) -> (r: usize)
        ensures
            r == self.start_address,
    {
        self.start_address
    }

    pub fn set_address(self, address: usize) -> (c: Config)
        ensures
            c == (Config { start_address: address, ..self }),
    {
        Config { start_address: address, ..self }
    }

    pub fn show_address(self, show: bool) -> (c: Config)
        ensures
            c == (Config { show_address: show, ..self }),
    {
        Config { show_address: show, ..self }
    }

    pub fn group_size(self, size: usize) -> (c: Config)
        ensures
            c == (Config { group_size: size, ..self }),
    {
        Config { group_size: size, ..self }
    }

    pub fn columns(self, columns: usize) -> (c: Config)
        ensures
            c == (Config { columns: columns, ..self }),
    {
        Config { columns: columns, ..self }
    }

    pub fn show_interpretation(self, show: bool) -> (c: Config)
        ensures
            c == (Config { show_interpretation: show, ..self }),
    {
        Config { show_interpretation: show, ..self }
    }

    pub fn separator(self, use_separator: bool) -> (c: Config)
        ensures
            c == (Config { use_separator: use_separator, ..self }),
    {
        Config { use_separator: use_separator, ..self }
    }

    pub fn format(self, fmt: Format) -> (c: Config)
        ensures
            c == (Config { output_fmt: fmt, ..self }),
    {
        Config { output_fmt: fmt, ..self }
    }
}

impl Default for Config {
    fn default() -> (c: Config)
        ensures
            c == Config::default_spec(),
    {
        Config::new()
    }
}

/// One byte as fixed-width text in the given format.
pub open spec fn byte_text(f: Format, b: u8) -> Seq<char> {
    num_text(b as nat, f.base_spec(), f.upper_spec(), f.digit_width_spec())
}

/// The separator (if any) standing after the byte at position `i`: one
/// space whenever that byte completes a group.
pub open spec fn sep_text(i: nat, cfg: Config) -> Seq<char> {
    if cfg.use_separator && (i + 1) % (cfg.group_size as nat) == 0 {
        seq![' ']
    } else {
        Seq::<char>::empty()
    }
}

/// The byte field of a line, from position `i` on: each byte in the selected
/// format, with a separator after each completed group.
pub open spec fn bytes_field(data: Seq<u8>, cfg: Config, i: nat) -> Seq<char>
    decreases data.len() - i,
    when i <= data.len()
{
    if i == data.len() {
        Seq::<char>::empty()
    } else {
        byte_text(cfg.output_fmt, data[i as int]) + sep_text(i, cfg) + bytes_field(
            data,
            cfg,
            i + 1,
        )
    }
}

/// How a byte shows in the interpretation column: itself if printable
/// ASCII, a dot otherwise.
pub open spec fn interp_char(b: u8) -> char {
    if 0x20 <= b <= 0x7e {
        b as char
    } else {
        '.'
    }
}

/// The interpretation column for a byte slice.
pub open spec fn interp_text(data: Seq<u8>) -> Seq<char> {
    Seq::new(data.len(), |i: int| interp_char(data[i]))
}

/// The address field: the address as zero-padded hexadecimal of at least
/// eight digits, followed by a colon and a space.
pub open spec fn addr_field(a: nat) -> Seq<char> {
    num_text(a, 16, true, 8) + ": "@
}

/// How many characters the byte field takes for `n` bytes: the digits
/// themselves plus one separator after each completed group.
pub open spec fn written_width(n: nat, cfg: Config) -> nat {
    (n * cfg.output_fmt.digit_width_spec() + if cfg.use_separator {
        n / (cfg.group_size as nat)
    } else {
        0
    }) as nat
}

/// The width the byte field of a full line occupies, with one separator
/// slot reserved per column group.
pub open spec fn expected_width(cfg: Config) -> nat {
    (cfg.columns * cfg.group_size * cfg.output_fmt.digit_width_spec() + cfg.columns) as nat
}

/// The spaces appended after a short line's byte field so that the
/// interpretation column starts where it would on a full line.
pub open spec fn pad_width(n: nat, cfg: Config) -> nat {
    if written_width(n, cfg) <= expected_width(cfg) {
        (expected_width(cfg) - written_width(n, cfg)) as nat
    } else {
        0
    }
}

/// The exact text of one dump line: optional address field, the byte field,
/// right-padding to the full line width, and the optional interpretation
/// column behind one leading space.
pub open spec fn line_text(data: Seq<u8>, cfg: Config) -> Seq<char> {
    (if cfg.show_address {
        addr_field(cfg.start_address as nat)
    } else {
        Seq::<char>::empty()
    }) + bytes_field(data, cfg, 0) + char_repeat(' ', pad_width(data.len(), cfg)) + (
    if cfg.show_interpretation {
        seq![' '] + interp_text(data)
    } else {
        Seq::<char>::empty()
    })
}

/// Every format writes each byte at its fixed digit width.
pub proof fn lemma_byte_text_len(f: Format, b: u8)
    ensures
        byte_text(f, b).len() == f.digit_width_spec(),
{
    let base = f.base_spec();
    let w = f.digit_width_spec();
    assert(pow(16, 2) == 256 && pow(10, 3) == 1000 && pow(8, 3) == 512) by {
        reveal_with_fuel(pow, 4);
    }
    assert(pow(2, 8) == 256) by {
        reveal_with_fuel(pow, 9);
    }
    assert((b as nat) < pow(base as int, w));
    lemma_num_digits_le(b as nat, base, w);
    lemma_num_text_len(b as nat, base, f.upper_spec(), w);
}

/// The byte field from position `i` on takes one digit-width per byte plus
/// one space per completed group.
pub proof fn lemma_bytes_field_len(data: Seq<u8>, cfg: Config, i: nat)
    requires
        cfg.group_size >= 1,
        i <= data.len(),
    ensures
        bytes_field(data, cfg, i).len() as int == (data.len() - i) * (
        cfg.output_fmt.digit_width_spec() as int) + if cfg.use_separator {
            (data.len() as int) / (cfg.group_size as int) - (i as int) / (cfg.group_size as int)
        } else {
            0
        },
    decreases data.len() - i,
{
    let n = data.len();
    let g = cfg.group_size as int;
    let dw = cfg.output_fmt.digit_width_spec() as int;
    lemma_div_is_ordered(i as int, n as int, g);
    if i < n {
        lemma_byte_text_len(cfg.output_fmt, data[i as int]);
        lemma_bytes_field_len(data, cfg, i + 1);
        lemma_div_succ(i, cfg.group_size as nat);
        assert((n - i) * dw == (n - (i + 1)) * dw + dw) by (nonlinear_arith);
    }
}

/// On at most a full line's worth of bytes, the byte field never exceeds
/// the reserved full-line width.
pub proof fn lemma_written_le_expected(n: nat, cfg: Config)
    requires
        cfg.wf(),
        n <= cfg.spec_bytes_per_line(),
    ensures
        written_width(n, cfg) <= expected_width(cfg),
{
    let g = cfg.group_size as int;
    let c = cfg.columns as int;
    let dw = cfg.output_fmt.digit_width_spec() as int;
    assert((n as int) * dw <= (c * g) * dw) by (nonlinear_arith)
        requires
            n <= c * g,
            dw >= 0,
    ;
    if cfg.use_separator {
        lemma_div_is_ordered(n as int, c * g, g);
        lemma_div_by_multiple(c, g);
        assert((c * g) / g == c);
    }
}

/// All information needed to dump one line of data: a borrowed byte slice
/// and a snapshot of the settings to render it under.
#[derive(Debug)]
pub struct OutputLine<'a> {
    pub output_settings: Config,
    pub data: &'a [u8],
}

impl<'a> OutputLine<'a> {
    /// A line over `data`, rendered under the default settings until
    /// [`OutputLine::format`] replaces them.
    pub fn new(data: &'a [u8]) -> (r: OutputLine<'a>)
        ensures
            r.output_settings == Config::default_spec(),
            r.data@ == data@,
    {
        OutputLine { output_settings: Config::new(), data }
    }

    /// The same line under the given settings.
    pub fn format(self, settings: Config) -> (r: OutputLine<'a>)
        ensures
            r.output_settings == settings,
            r.data@ == self.data@,
    {
        OutputLine { output_settings: settings, data: self.data }
    }

    /// Whether this line can be rendered: valid settings and at most one
    /// full line of data.
    pub open spec fn wf(self) -> bool {
        self.output_settings.wf() && self.data@.len() <= self.output_settings.spec_bytes_per_line()
    }

    fn write_address(&self, out: &mut String)
        ensures
            final(out)@ == old(out)@ + addr_field(self.output_settings.start_address as nat),
    {
        push_number(out, self.output_settings.start_address, 16, true, 8);
        out.append(": ");
        proof {
            assert(out@ =~= old(out)@ + addr_field(self.output_settings.start_address as nat));
        }
    }

    fn write_formated_byte(&self, out: &mut String, byte: u8) -> (w: usize)
        ensures
            final(out)@ == old(out)@ + byte_text(self.output_settings.output_fmt, byte),
            w == self.output_settings.output_fmt.digit_width_spec(),
    {
        match self.output_settings.output_fmt {
            Format::HexUpperCase => {
                push_number(out, byte as usize, 16, true, 2);
                2
            },
            Format::Hex => {
                push_number(out, byte as usize, 16, false, 2);
                2
            },
            Format::Decimal => {
                push_number(out, byte as usize, 10, false, 3);
                3
            },
            Format::Octal => {
                push_number(out, byte as usize, 8, false, 3);
                3
            },
            Format::Binary => {
                push_number(out, byte as usize, 2, false, 8);
                8
            },
        }
    }

    fn write_bytes(&self, out: &mut String) -> (written: usize)
        requires
            self.wf(),
        ensures
            final(out)@ == old(out)@ + bytes_field(self.data@, self.output_settings, 0),
            written == written_width(self.data@.len(), self.output_settings),
    {
        let cfg = self.output_settings;
        let dw_int = cfg.output_fmt.digit_width();
        let n = self.data.len();
        let mut bytes_written: usize = 0;
        let mut i: usize = 0;
        while i < n
            invariant
                self.wf(),
                cfg == self.output_settings,
                dw_int == cfg.output_fmt.digit_width_spec(),
                n == self.data@.len(),
                i <= n,
                old(out)@ + bytes_field(self.data@, cfg, 0) == out@ + bytes_field(
                    self.data@,
                    cfg,
                    i as nat,
                ),
                bytes_written == written_width(i as nat, cfg),
            decreases n - i,
        {
            let ghost entry = out@;
            let ghost g = cfg.group_size as nat;
            let ghost dw = cfg.output_fmt.digit_width_spec();
            proof {
                lemma_written_le_expected((i + 1) as nat, cfg);
                lemma_div_succ(i as nat, g);
                assert((i + 1) * dw == i * dw + dw) by (nonlinear_arith);
                assert(written_width((i + 1) as nat, cfg) <= expected_width(cfg));
            }
            let b = self.data[i];
            let is_seperator_necessary = (i + 1) % cfg.group_size == 0;
            if is_seperator_necessary && cfg.use_separator {
                let w = self.write_formated_byte(out, b);
                push_char(out, ' ');
                bytes_written = bytes_written + w + 1;
                proof {
                    assert(out@ =~= entry + byte_text(cfg.output_fmt, self.data@[i as int])
                        + sep_text(i as nat, cfg));
                }
            } else {
                let w = self.write_formated_byte(out, b);
                bytes_written = bytes_written + w;
                proof {
                    assert(out@ =~= entry + byte_text(cfg.output_fmt, self.data@[i as int])
                        + sep_text(i as nat, cfg));
                }
            }
            proof {
                assert(bytes_field(self.data@, cfg, i as nat) =~= byte_text(
                    cfg.output_fmt,
                    self.data@[i as int],
                ) + sep_text(i as nat, cfg) + bytes_field(self.data@, cfg, (i + 1) as nat));
                assert(old(out)@ + bytes_field(self.data@, cfg, 0) =~= out@ + bytes_field(
                    self.data@,
                    cfg,
                    (i + 1) as nat,
                ));
            }
            i = i + 1;
        }
        proof {
            assert(bytes_field(self.data@, cfg, n as nat) =~= Seq::<char>::empty());
            assert(out@ =~= old(out)@ + bytes_field(self.data@, cfg, 0));
        }
        bytes_written
    }

    fn write_interpretation(&self, out: &mut String)
        ensures
            final(out)@ == old(out)@ + seq![' '] + interp_text(self.data@),
    {
        push_char(out, ' ');
        let n = self.data.len();
        let mut i: usize = 0;
        while i < n
            invariant
                n == self.data@.len(),
                i <= n,
                out@ == old(out)@ + seq![' '] + interp_text(self.data@).take(i as int),
            decreases n - i,
        {
            let b = self.data[i];
            if 0x20 <= b && b <= 0x7e {
                push_char(out, b as char);
            } else {
                push_char(out, '.');
            }
            proof {
                assert(out@ =~= old(out)@ + seq![' '] + interp_text(self.data@).take(
                    (i + 1) as int,
                ));
            }
            i = i + 1;
        }
        proof {
            assert(interp_text(self.data@).take(n as int) =~= interp_text(self.data@));
            assert(out@ =~= old(out)@ + seq![' '] + interp_text(self.data@));
        }
    }

    /// The exact text of this line: optional address, the byte field padded
    /// to the full line width, and the optional interpretation column.
    pub fn render(&self) -> (r: String)
        requires
            self.wf(),
        ensures
            r@ == line_text(self.data@, self.output_settings),
    {
        let cfg = self.output_settings;
        let mut out = String::new();
        if cfg.show_address {
            self.write_address(&mut out);
        }
        let bytes_written = self.write_bytes(&mut out);
        let format_size = cfg.output_fmt.digit_width();
        proof {
            assert(cfg.columns * cfg.group_size <= cfg.columns * cfg.group_size * (
            cfg.output_fmt.digit_width_spec() as int)) by (nonlinear_arith)
                requires
                    cfg.columns >= 0,
                    cfg.group_size >= 0,
                    cfg.output_fmt.digit_width_spec() >= 1,
            ;
            lemma_written_le_expected(self.data@.len(), cfg);
        }
        let expected_length = cfg.columns * cfg.group_size * format_size + cfg.columns;
        let padding = expected_length - bytes_written;
        push_spaces(&mut out, padding);
        if cfg.show_interpretation {
            self.write_interpretation(&mut out);
        }
        proof {
            assert(padding == pad_width(self.data@.len(), cfg));
            assert(out@ =~= line_text(self.data@, cfg));
        }
        out
    }
}

/// The exact text of a whole dump: one line per chunk of `bytes_per_line`
/// bytes, in increasing address order, the line addresses advancing by the
/// chunk length, with a final short line when a remainder is left over.
pub open spec fn dump_text(data: Seq<u8>, cfg: Config) -> Seq<char>
    decreases data.len(),
    when cfg.columns >= 1 && cfg.group_size >= 1
    via dump_text_decreases
{
    let bpl = cfg.spec_bytes_per_line();
    if data.len() == 0 {
        Seq::<char>::empty()
    } else if data.len() <= bpl {
        line_text(data, cfg) + seq!['\n']
    } else {
        line_text(data.take(bpl as int), cfg) + seq!['\n'] + dump_text(
            data.skip(bpl as int),
            cfg.spec_advance(bpl),
        )
    }
}

#[via_fn]
proof fn dump_text_decreases(data: Seq<u8>, cfg: Config) {
    assert(cfg.columns * cfg.group_size >= 1) by (nonlinear_arith)
        requires
            cfg.columns >= 1,
            cfg.group_size >= 1,
    ;
}

/// Renders one line under the given settings and writes it to the sink,
/// followed by a line terminator.
pub fn dump_line(data: &[u8], writer: &mut String, output_settings: Config)
    requires
        output_settings.wf(),
        data@.len() <= output_settings.spec_bytes_per_line(),
    ensures
        final(writer)@ == old(writer)@ + line_text(data@, output_settings) + seq!['\n'],
{
    let output_line = OutputLine::new(data).format(output_settings);
    let rendered = output_line.render();
    writer.append(rendered.as_str());
    push_char(writer, '\n');
    proof {
        assert(writer@ =~= old(writer)@ + line_text(data@, output_settings) + seq!['\n']);
    }
}

/// The ordering law of the dump: from any chunk boundary, the dump emits
/// exactly one full line for the next `bytes_per_line` bytes — at the
/// address advanced by the bytes already consumed — followed by the dump of
/// the rest, so lines come out in strictly increasing address order.
pub proof fn lemma_dump_text_step(data: Seq<u8>, cfg: Config, offset: nat, bpl: nat)
    requires
        cfg.columns >= 1,
        cfg.group_size >= 1,
        bpl == cfg.spec_bytes_per_line(),
        offset + bpl <= data.len(),
        cfg.start_address + offset + bpl <= usize::MAX,
    ensures
        dump_text(data.skip(offset as int), cfg.spec_advance(offset)) == line_text(
            data.subrange(offset as int, (offset + bpl) as int),
            cfg.spec_advance(offset),
        ) + seq!['\n'] + dump_text(
            data.skip((offset + bpl) as int),
            cfg.spec_advance((offset + bpl) as nat),
        ),
{
    let rest = data.skip(offset as int);
    let chunk_cfg = cfg.spec_advance(offset);
    assert(bpl >= 1) by (nonlinear_arith)
        requires
            cfg.columns >= 1,
            cfg.group_size >= 1,
            bpl == (cfg.columns * cfg.group_size) as nat,
    ;
    assert(rest.take(bpl as int) =~= data.subrange(offset as int, (offset + bpl) as int));
    assert(rest.skip(bpl as int) =~= data.skip((offset + bpl) as int));
    assert(chunk_cfg.spec_advance(bpl) == cfg.spec_advance((offset + bpl) as nat));
    if rest.len() == bpl {
        assert(dump_text(rest.skip(bpl as int), chunk_cfg.spec_advance(bpl)) =~= Seq::<
            char,
        >::empty());
        assert(rest.take(bpl as int) =~= rest);
        assert(dump_text(rest, chunk_cfg) =~= line_text(rest.take(bpl as int), chunk_cfg)
            + seq!['\n'] + dump_text(rest.skip(bpl as int), chunk_cfg.spec_advance(bpl)));
    }
}

/// Chunks the byte sequence into line-sized groups, tracks the running
/// address, and writes one rendered line per chunk to the sink, including a
/// final short chunk.
#[verifier::rlimit(100)]
#[verifier::spinoff_prover]
pub fn dump_iterator(data: &[u8], writer: &mut String, output_settings: Config) -> (r: Result<
    (),
    DumpError,
>)
    requires
        output_settings.wf(),
        output_settings.start_address + data@.len() <= usize::MAX,
    ensures
        r is Ok,
        final(writer)@ == old(writer)@ + dump_text(data@, output_settings),
{
    proof {
        assert(output_settings.columns * output_settings.group_size >= 1
            && output_settings.columns * output_settings.group_size <= output_settings.columns
            * output_settings.group_size * (
        output_settings.output_fmt.digit_width_spec() as int)) by (nonlinear_arith)
            requires
                output_settings.columns >= 1,
                output_settings.group_size >= 1,
                output_settings.output_fmt.digit_width_spec() >= 1,
        ;
    }
    let bpl = output_settings.bytes_per_line();
    let mut line_buffer: Vec<u8> = Vec::new();
    let mut offset: usize = 0;
    let mut i: usize = 0;
    proof {
        assert(data@.skip(0) =~= data@);
        assert(output_settings.spec_advance(0) == output_settings);
        assert(line_buffer@ =~= data@.subrange(0, 0));
    }
    while i < data.len()
        invariant
            output_settings.wf(),
            output_settings.start_address + data@.len() <= usize::MAX,
            bpl == output_settings.spec_bytes_per_line(),
            bpl >= 1,
            i <= data@.len(),
            offset <= i,
            line_buffer@ == data@.subrange(offset as int, i as int),
            line_buffer@.len() < bpl,
            old(writer)@ + dump_text(data@, output_settings) == writer@ + dump_text(
                data@.skip(offset as int),
                output_settings.spec_advance(offset as nat),
            ),
        decreases data@.len() - i,
    {
        let b = data[i];
        line_buffer.push(b);
        i = i + 1;
        proof {
            assert(line_buffer@ =~= data@.subrange(offset as int, i as int));
        }
        if line_buffer.len() == bpl {
            let line_cfg = output_settings.set_address(output_settings.start_address() + offset);
            proof {
                assert(line_cfg == output_settings.spec_advance(offset as nat));
                assert(line_cfg.wf());
            }
            dump_line(line_buffer.as_slice(), writer, line_cfg);
            offset = offset + line_buffer.len();
            line_buffer.clear();
            proof {
                lemma_dump_text_step(data@, output_settings, (offset - bpl) as nat, bpl as nat);
                assert(old(writer)@ + dump_text(data@, output_settings) =~= writer@ + dump_text(
                    data@.skip(offset as int),
                    output_settings.spec_advance(offset as nat),
                ));
                assert(line_buffer@ =~= data@.subrange(offset as int, i as int));
            }
        }
    }
    if line_buffer.len() > 0 {
        let line_cfg = output_settings.set_address(output_settings.start_address() + offset);
        let ghost chunk_cfg = output_settings.spec_advance(offset as nat);
        let ghost rest = data@.skip(offset as int);
        proof {
            assert(line_cfg == chunk_cfg);
            assert(line_cfg.wf());
            assert(rest =~= line_buffer@);
        }
        dump_line(line_buffer.as_slice(), writer, line_cfg);
        line_buffer.clear();
        proof {
            assert(dump_text(rest, chunk_cfg) =~= line_text(rest, chunk_cfg) + seq!['\n']);
            assert(writer@ =~= old(writer)@ + dump_text(data@, output_settings));
        }
    } else {
        proof {
            assert(data@.skip(offset as int) =~= Seq::<u8>::empty());
            assert(dump_text(
                data@.skip(offset as int),
                output_settings.spec_advance(offset as nat),
            ) =~= Seq::<char>::empty());
            assert(writer@ =~= old(writer)@ + dump_text(data@, output_settings));
        }
    }
    Ok(())
}

/// The default settings satisfy the renderability requirement.
pub proof fn lemma_default_config_wf()
    ensures
        Config::default_spec().wf(),
{
    let c = Config::default_spec();
    assert(c.columns * c.group_size * c.output_fmt.digit_width_spec() + c.columns == 24);
}

/// Each format has one fixed digit width.
pub proof fn lemma_digit_width_constant()
    ensures
        Format::HexUpperCase.digit_width_spec() == 2,
        Format::Hex.digit_width_spec() == 2,
        Format::Decimal.digit_width_spec() == 3,
        Format::Octal.digit_width_spec() == 3,
        Format::Binary.digit_width_spec() == 8,
{
}

/// The padding law: on any slice of at most one line, the byte field plus
/// its padding occupies exactly the full-line width, which depends on the
/// column count, the group size and the format alone — so the
/// interpretation column starts at the same offset on every line.
pub proof fn lemma_padding_alignment(data: Seq<u8>, cfg: Config)
    requires
        cfg.wf(),
        data.len() <= cfg.spec_bytes_per_line(),
    ensures
        written_width(data.len(), cfg) <= expected_width(cfg),
        bytes_field(data, cfg, 0).len() == written_width(data.len(), cfg),
        bytes_field(data, cfg, 0).len() + pad_width(data.len(), cfg) == expected_width(cfg),
{
    lemma_written_le_expected(data.len(), cfg);
    lemma_bytes_field_len(data, cfg, 0);
    if cfg.use_separator {
        assert((0int) / (cfg.group_size as int) == 0) by {
            lemma_fundamental_div_mod_converse(0, cfg.group_size as int, 0, 0);
        }
    }
}

proof fn lemma_interp_no_newline(data: Seq<u8>)
    ensures
        forall|i: int| 0 <= i < interp_text(data).len() ==> interp_text(data)[i] != '\n',
{
    assert forall|i: int| 0 <= i < interp_text(data).len() implies interp_text(data)[i]
        != '\n' by {
        let b = data[i];
        assert(interp_text(data)[i] == interp_char(b));
        if 0x20 <= b <= 0x7e {
            assert((b as char) != '\n');
        }
    }
}

proof fn lemma_addr_field_no_newline(a: nat)
    ensures
        forall|i: int| 0 <= i < addr_field(a).len() ==> addr_field(a)[i] != '\n',
{
    crate::digits::lemma_num_text_no_newline(a, 16, true, 8);
    let nt = num_text(a, 16, true, 8);
    reveal_strlit(": ");
    assert forall|i: int| 0 <= i < addr_field(a).len() implies addr_field(a)[i] != '\n' by {
        if i < nt.len() {
            assert(addr_field(a)[i] == nt[i]);
        } else {
            assert(addr_field(a)[i] == ": "@[i - nt.len()]);
        }
    }
}

proof fn lemma_bytes_field_no_newline(data: Seq<u8>, cfg: Config, i: nat)
    requires
        i <= data.len(),
    ensures
        forall|j: int|
            0 <= j < bytes_field(data, cfg, i).len() ==> bytes_field(data, cfg, i)[j] != '\n',
    decreases data.len() - i,
{
    if i < data.len() {
        let bt = byte_text(cfg.output_fmt, data[i as int]);
        let st = sep_text(i, cfg);
        let rest = bytes_field(data, cfg, i + 1);
        crate::digits::lemma_num_text_no_newline(
            data[i as int] as nat,
            cfg.output_fmt.base_spec(),
            cfg.output_fmt.upper_spec(),
            cfg.output_fmt.digit_width_spec(),
        );
        lemma_bytes_field_no_newline(data, cfg, i + 1);
        assert forall|j: int|
            0 <= j < bytes_field(data, cfg, i).len() implies bytes_field(data, cfg, i)[j]
            != '\n' by {
            if j < bt.len() {
                assert(bytes_field(data, cfg, i)[j] == bt[j]);
            } else if j < bt.len() + st.len() {
                assert(bytes_field(data, cfg, i)[j] == st[j - bt.len()]);
            } else {
                assert(bytes_field(data, cfg, i)[j] == rest[j - bt.len() - st.len()]);
            }
        }
    }
}

/// One rendered line holds no line terminator of its own.
pub proof fn lemma_line_text_no_newline(data: Seq<u8>, cfg: Config)
    ensures
        newline_count(line_text(data, cfg)) == 0,
{
    let addr = if cfg.show_address {
        addr_field(cfg.start_address as nat)
    } else {
        Seq::<char>::empty()
    };
    let field = bytes_field(data, cfg, 0);
    let pad = char_repeat(' ', pad_width(data.len(), cfg));
    let interp = if cfg.show_interpretation {
        seq![' '] + interp_text(data)
    } else {
        Seq::<char>::empty()
    };
    lemma_addr_field_no_newline(cfg.start_address as nat);
    lemma_bytes_field_no_newline(data, cfg, 0);
    lemma_interp_no_newline(data);
    lemma_newline_count_none(addr);
    lemma_newline_count_none(field);
    lemma_newline_count_none(pad);
    assert forall|i: int| 0 <= i < interp.len() implies interp[i] != '\n' by {
        if cfg.show_interpretation && i >= 1 {
            assert(interp[i] == interp_text(data)[i - 1]);
        }
    }
    lemma_newline_count_none(interp);
    lemma_newline_count_concat(addr, field);
    lemma_newline_count_concat(addr + field, pad);
    lemma_newline_count_concat(addr + field + pad, interp);
}

/// A dump has one line terminator per line: the number of bytes divided by
/// the bytes per line, rounded upward.
pub proof fn lemma_dump_newline_count(data: Seq<u8>, cfg: Config)
    requires
        cfg.wf(),
    ensures
        newline_count(dump_text(data, cfg)) as int == (data.len() + cfg.spec_bytes_per_line()
            - 1) as int / cfg.spec_bytes_per_line() as int,
    decreases data.len(),
{
    let bpl = cfg.spec_bytes_per_line() as int;
    let n = data.len() as int;
    assert(bpl >= 1) by (nonlinear_arith)
        requires
            cfg.columns >= 1,
            cfg.group_size >= 1,
            bpl == (cfg.columns * cfg.group_size) as int,
    ;
    if data.len() == 0 {
        lemma_fundamental_div_mod_converse(bpl - 1, bpl, 0, bpl - 1);
    } else if n <= bpl {
        lemma_line_text_no_newline(data, cfg);
        lemma_newline_count_concat(line_text(data, cfg), seq!['\n']);
        lemma_newline_count_single('\n');
        assert(n + bpl - 1 == 1 * bpl + (n - 1)) by (nonlinear_arith);
        lemma_fundamental_div_mod_converse(n + bpl - 1, bpl, 1, n - 1);
    } else {
        let chunk = data.take(bpl);
        let rest = data.skip(bpl);
        let adv = cfg.spec_advance(bpl as nat);
        lemma_dump_newline_count(rest, adv);
        lemma_line_text_no_newline(chunk, cfg);
        lemma_newline_count_concat(line_text(chunk, cfg), seq!['\n']);
        lemma_newline_count_single('\n');
        lemma_newline_count_concat(line_text(chunk, cfg) + seq!['\n'], dump_text(rest, adv));
        let m = rest.len() as int;
        let q = (m + bpl - 1) / bpl;
        let r = (m + bpl - 1) % bpl;
        lemma_fundamental_div_mod(m + bpl - 1, bpl);
        lemma_mod_division_less_than_divisor(m + bpl - 1, bpl);
        assert(n + bpl - 1 == (q + 1) * bpl + r) by (nonlinear_arith)
            requires
                m + bpl - 1 == q * bpl + r,
                n == m + bpl,
        ;
        lemma_fundamental_div_mod_converse(n + bpl - 1, bpl, q + 1, r);
    }
}

/// An input of exactly `k` full lines dumps as exactly `k` lines.
pub proof fn lemma_dump_full_chunk_count(data: Seq<u8>, cfg: Config, k: nat)
    requires
        cfg.wf(),
        data.len() == k * cfg.spec_bytes_per_line(),
    ensures
        newline_count(dump_text(data, cfg)) == k,
{
    let bpl = cfg.spec_bytes_per_line() as int;
    assert(bpl >= 1) by (nonlinear_arith)
        requires
            cfg.columns >= 1,
            cfg.group_size >= 1,
            bpl == (cfg.columns * cfg.group_size) as int,
    ;
    lemma_dump_newline_count(data, cfg);
    assert(data.len() + bpl - 1 == k * bpl + (bpl - 1)) by (nonlinear_arith)
        requires
            data.len() == k * bpl,
    ;
    lemma_fundamental_div_mod_converse(data.len() + bpl - 1, bpl, k as int, bpl - 1);
}

/// An input of `k` full lines and a remainder dumps as `k + 1` lines, the
/// last short.
pub proof fn lemma_dump_partial_chunk_count(data: Seq<u8>, cfg: Config, k: nat, r: nat)
    requires
        cfg.wf(),
        data.len() == k * cfg.spec_bytes_per_line() + r,
        0 < r < cfg.spec_bytes_per_line(),
    ensures
        newline_count(dump_text(data, cfg)) == k + 1,
{
    let bpl = cfg.spec_bytes_per_line() as int;
    assert(bpl >= 1) by (nonlinear_arith)
        requires
            cfg.columns >= 1,
            cfg.group_size >= 1,
            bpl == (cfg.columns * cfg.group_size) as int,
    ;
    lemma_dump_newline_count(data, cfg);
    assert(data.len() + bpl - 1 == (k + 1) * bpl + (r - 1)) by (nonlinear_arith)
        requires
            data.len() == k * bpl + r,
    ;
    lemma_fundamental_div_mod_converse(data.len() + bpl - 1, bpl, k as int + 1, r - 1);
}

/// Under the default settings, an eight-byte line is exactly the address
/// field `00000000: `, eight two-digit upper-case hex bytes each followed
/// by one space, no padding, and the interpretation column behind one more
/// space.
#[verifier::rlimit(100)]
#[verifier::spinoff_prover]
pub proof fn lemma_default_full_line(data: Seq<u8>)
    requires
        data.len() == 8,
    ensures
        line_text(data, Config::default_spec()) == "00000000: "@ + byte_text(
            Format::HexUpperCase,
            data[0],
        ) + seq![' '] + byte_text(Format::HexUpperCase, data[1]) + seq![' '] + byte_text(
            Format::HexUpperCase,
            data[2],
        ) + seq![' '] + byte_text(Format::HexUpperCase, data[3]) + seq![' '] + byte_text(
            Format::HexUpperCase,
            data[4],
        ) + seq![' '] + byte_text(Format::HexUpperCase, data[5]) + seq![' '] + byte_text(
            Format::HexUpperCase,
            data[6],
        ) + seq![' '] + byte_text(Format::HexUpperCase, data[7]) + seq![' '] + seq![' ']
            + interp_text(data),
        pad_width(data.len(), Config::default_spec()) == 0,
{
    let cfg = Config::default_spec();
    let f = Format::HexUpperCase;
    reveal_strlit("00000000: ");
    reveal_strlit(": ");
    assert(addr_field(0) =~= "00000000: "@);
    assert(8nat / 1nat == 8) by {
        lemma_fundamental_div_mod_converse(8, 1, 8, 0);
    }
    assert(pad_width(8, cfg) == 0);
    assert(char_repeat(' ', 0) =~= Seq::<char>::empty());
    assert forall|i: nat| i < 8 implies sep_text(i, cfg) == seq![' '] by {
        lemma_fundamental_div_mod_converse(i as int + 1, 1, i as int + 1, 0);
    }
    lemma_byte_text_len(f, data[0]);
    lemma_byte_text_len(f, data[1]);
    lemma_byte_text_len(f, data[2]);
    lemma_byte_text_len(f, data[3]);
    lemma_byte_text_len(f, data[4]);
    lemma_byte_text_len(f, data[5]);
    lemma_byte_text_len(f, data[6]);
    lemma_byte_text_len(f, data[7]);
    assert(bytes_field(data, cfg, 8) =~= Seq::<char>::empty());
    assert(bytes_field(data, cfg, 7) =~= byte_text(f, data[7]) + seq![' ']);
    assert(bytes_field(data, cfg, 6) =~= byte_text(f, data[6]) + seq![' '] + bytes_field(
        data,
        cfg,
        7,
    ));
    assert(bytes_field(data, cfg, 5) =~= byte_text(f, data[5]) + seq![' '] + bytes_field(
        data,
        cfg,
        6,
    ));
    assert(bytes_field(data, cfg, 4) =~= byte_text(f, data[4]) + seq![' '] + bytes_field(
        data,
        cfg,
        5,
    ));
    assert(bytes_field(data, cfg, 3) =~= byte_text(f, data[3]) + seq![' '] + bytes_field(
        data,
        cfg,
        4,
    ));
    assert(bytes_field(data, cfg, 2) =~= byte_text(f, data[2]) + seq![' '] + bytes_field(
        data,
        cfg,
        3,
    ));
    assert(bytes_field(data, cfg, 1) =~= byte_text(f, data[1]) + seq![' '] + bytes_field(
        data,
        cfg,
        2,
    ));
    assert(bytes_field(data, cfg, 0) =~= byte_text(f, data[0]) + seq![' '] + bytes_field(
        data,
        cfg,
        1,
    ));
    assert(line_text(data, cfg) =~= "00000000: "@ + byte_text(Format::HexUpperCase, data[0])
        + seq![' '] + byte_text(Format::HexUpperCase, data[1]) + seq![' '] + byte_text(
        Format::HexUpperCase,
        data[2],
    ) + seq![' '] + byte_text(Format::HexUpperCase, data[3]) + seq![' '] + byte_text(
        Format::HexUpperCase,
        data[4],
    ) + seq![' '] + byte_text(Format::HexUpperCase, data[5]) + seq![' '] + byte_text(
        Format::HexUpperCase,
        data[6],
    ) + seq![' '] + byte_text(Format::HexUpperCase, data[7]) + seq![' '] + seq![' ']
        + interp_text(data));
}

/// Rendering has no hidden state: the text of a line is a function of the
/// data and the settings alone, so rendering the same pair twice yields
/// identical output.
pub proof fn lemma_line_deterministic(r1: Seq<char>, r2: Seq<char>, data: Seq<u8>, cfg: Config)
    requires
        r1 == line_text(data, cfg),
        r2 == line_text(data, cfg),
    ensures
        r1 == r2,
{
}

/// Dumping has no hidden state: the text of a whole dump is a function of
/// the data and the settings alone, so dumping the same pair twice yields
/// identical output.
pub proof fn lemma_dump_deterministic(r1: Seq<char>, r2: Seq<char>, data: Seq<u8>, cfg: Config)
    requires
        r1 == dump_text(data, cfg),
        r2 == dump_text(data, cfg),
    ensures
        r1 == r2,
{
}

} // verus!
