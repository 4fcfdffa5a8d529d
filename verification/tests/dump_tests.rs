use xxd_rs::dump::{Config, DumpError, Format, OutputLine};

fn fixture_data() -> [u8; 8] {
    [0, 255, 127, 128, 56, 65, 1, 33]
}

fn fixture_small_data() -> [u8; 5] {
    [0, 255, 80, 44, 7]
}

#[test]
fn output_settings_can_be_constructed() {
    let _output_settings = Config::new();
    assert!(true);
}

#[test]
fn output_settings_builder() {
    let format = Format::Binary;
    let start_address = 0xFF00AABB;
    let group_size = 2;
    let show_address = false;
    let show_interpretation = false;

    let output_settings = Config::new()
        .format(format)
        .set_address(start_address)
        .group_size(group_size)
        .show_address(show_address)
        .show_interpretation(show_interpretation);

    assert_eq!(output_settings.output_fmt, format);
    assert_eq!(output_settings.start_address, start_address);
    assert_eq!(output_settings.group_size, group_size);
    assert_eq!(output_settings.show_address, show_address);
    assert_eq!(output_settings.show_interpretation, show_interpretation);
}

#[test]
fn output_settings_get_bytes_per_line() {
    {
        let group_size = 8;
        let columns = 2;
        let output_settings = Config::new().columns(columns).group_size(group_size);
        assert_eq!(group_size * columns, output_settings.bytes_per_line())
    }
    {
        let group_size = 5;
        let columns = 4;
        let output_settings = Config::new().columns(columns).group_size(group_size);
        assert_eq!(group_size * columns, output_settings.bytes_per_line())
    }
    {
        let group_size = 9;
        let columns = 4;
        let output_settings = Config::new().columns(columns).group_size(group_size);
        assert_eq!(group_size * columns, output_settings.bytes_per_line())
    }
}

#[test]
fn output_settings_from_string() {
    assert_eq!(Format::Binary, Format::parse("bin").unwrap());
    assert_eq!(Format::HexUpperCase, Format::parse("Hex").unwrap());
    assert_eq!(Format::Hex, Format::parse("hex").unwrap());
    assert_eq!(Format::Octal, Format::parse("oct").unwrap());
    assert_eq!(Format::Decimal, Format::parse("dec").unwrap());
}

#[test]
fn output_settings_rejects_uppercase_token() {
    assert_eq!(Err(DumpError::InvalidFormat), Format::parse("DEC"));
}

#[test]
fn output_settings_rejects_unknown_token() {
    assert_eq!(Err(DumpError::InvalidFormat), Format::parse("SomeRandomString"));
}

#[test]
fn outputline_can_be_constructed() {
    let data = fixture_data();
    let _output_line = OutputLine::new(&data);
    assert!(true);
}

#[test]
fn default_output_format_for_a_single_line() {
    let data = fixture_data();
    let output_line = OutputLine::new(&data);
    let expected_output = "00000000: 00 FF 7F 80 38 41 01 21  ....8A.!";
    let buffer = output_line.render();
    assert_eq!(expected_output, buffer);
}

#[test]
fn default_output_format_for_a_single_line_with_padding() {
    let data = fixture_small_data();
    let output_line = OutputLine::new(&data);
    let expected_output = "00000000: 00 FF 50 2C 07           ..P,.";
    let buffer = output_line.render();
    assert_eq!(expected_output, buffer);
}

#[test]
fn octal_output_format_on_a_single_line() {
    let data = fixture_data();
    let output_settings = Config::new().format(Format::Octal);
    let output_line = OutputLine::new(&data).format(output_settings);
    let expected_output = "00000000: 000 377 177 200 070 101 001 041  ....8A.!";
    let buffer = output_line.render();
    assert_eq!(expected_output, buffer);
}

#[test]
fn octal_output_format_for_a_single_line_with_padding() {
    let data = fixture_small_data();
    let output_settings = Config::new().format(Format::Octal);
    let output_line = OutputLine::new(&data).format(output_settings);
    let expected_output = "00000000: 000 377 120 054 007              ..P,.";
    let buffer = output_line.render();
    assert_eq!(expected_output, buffer);
}

#[test]
fn binary_output_format_on_a_single_line() {
    let data = fixture_data();
    let output_settings = Config::new().format(Format::Binary);
    let output_line = OutputLine::new(&data).format(output_settings);
    let expected_output = "00000000: 00000000 11111111 01111111 10000000 00111000 01000001 00000001 00100001  ....8A.!";
    let buffer = output_line.render();
    assert_eq!(expected_output, buffer);
}

#[test]
fn binary_output_format_for_a_single_line_with_padding() {
    let data = fixture_small_data();
    let output_settings = Config::new().format(Format::Binary);
    let output_line = OutputLine::new(&data).format(output_settings);
    let expected_output =
        "00000000: 00000000 11111111 01010000 00101100 00000111                             ..P,.";
    let buffer = output_line.render();
    assert_eq!(expected_output, buffer);
}

#[test]
fn dump_line() {
    let data = fixture_small_data();
    let expected_output = "00000000: 00 FF 50 2C 07           ..P,.\n";
    let output_settings = Config::new().format(Format::HexUpperCase);
    let mut buffer = String::new();

    xxd_rs::dump::dump_line(&data, &mut buffer, output_settings);

    assert_eq!(expected_output, buffer);
}

#[test]
fn dump_iterator() {
    let small_data: Vec<u8> = vec![0, 255, 80, 44, 7];
    let expected_output = "00000000: 00 FF 50 2C 07           ..P,.\n";
    let output_settings = Config::new().format(Format::HexUpperCase);
    let mut buffer = String::new();

    xxd_rs::dump::dump_iterator(&small_data, &mut buffer, output_settings).unwrap();

    assert_eq!(expected_output, buffer);
}

#[test]
fn dump_iterator_with_offset() {
    let small_data: Vec<u8> = vec![0, 255, 80, 44, 7];
    let expected_output = "0000000A: 00 FF 50 2C 07           ..P,.\n";
    let output_settings = Config::new().format(Format::HexUpperCase).set_address(10);
    let mut buffer = String::new();

    xxd_rs::dump::dump_iterator(&small_data, &mut buffer, output_settings).unwrap();

    assert_eq!(expected_output, buffer);
}

#[test]
fn dump_of_full_line_scenario() {
    let mut buffer = String::new();
    xxd_rs::dump::dump_iterator(&[0, 255, 127, 128, 56, 65, 1, 33], &mut buffer, Config::new()).unwrap();
    assert_eq!("00000000: 00 FF 7F 80 38 41 01 21  ....8A.!\n", buffer);
}

#[test]
fn dump_of_short_line_with_address_scenario() {
    let mut buffer = String::new();
    xxd_rs::dump::dump_iterator(
        &[0, 255, 80, 44, 7],
        &mut buffer,
        Config::default().set_address(10),
    )
    .unwrap();
    assert_eq!("0000000A: 00 FF 50 2C 07           ..P,.\n", buffer);
}

#[test]
fn dump_of_empty_input_is_empty() {
    let mut buffer = String::new();
    xxd_rs::dump::dump_iterator(&[], &mut buffer, Config::new()).unwrap();
    assert_eq!("", buffer);
}

#[test]
fn dump_of_two_full_lines() {
    let data: Vec<u8> = (0u8..16u8).collect();
    let mut buffer = String::new();
    xxd_rs::dump::dump_iterator(&data, &mut buffer, Config::new()).unwrap();
    let lines: Vec<&str> = buffer.lines().collect();
    assert_eq!(2, lines.len());
    assert_eq!(2, buffer.matches('\n').count());
    assert!(lines[0].starts_with("00000000: "));
    assert!(lines[1].starts_with("00000008: "));
    assert_eq!("00000000: 00 01 02 03 04 05 06 07  ........", lines[0]);
}

#[test]
fn dump_of_two_lines_with_short_tail() {
    let data: Vec<u8> = (0u8..10u8).collect();
    let mut buffer = String::new();
    xxd_rs::dump::dump_iterator(&data, &mut buffer, Config::new()).unwrap();
    let lines: Vec<&str> = buffer.lines().collect();
    assert_eq!(2, lines.len());
    assert!(lines[1].starts_with("00000008: 08 09"));
    // the short tail is padded so both lines are equally long
    assert_eq!(lines[0].len() - 8, lines[1].len() - 2);
}

#[test]
fn interpretation_column_is_aligned_for_short_lines() {
    let full = OutputLine::new(&[0x41u8; 8]).render();
    let short = OutputLine::new(&[0x41u8; 3]).render();
    // both interpretation columns start at the same character offset
    assert_eq!(full.len() - 8, short.len() - 3);
    assert_eq!("00000000: 41 41 41                 AAA", short);
}

#[test]
fn digit_width_is_constant_per_format() {
    assert_eq!(2, Format::HexUpperCase.digit_width());
    assert_eq!(2, Format::Hex.digit_width());
    assert_eq!(3, Format::Decimal.digit_width());
    assert_eq!(3, Format::Octal.digit_width());
    assert_eq!(8, Format::Binary.digit_width());
}

#[test]
fn rendering_twice_gives_identical_output() {
    let data = [1u8, 2, 250, 7];
    let line = OutputLine::new(&data);
    assert_eq!(line.render(), line.render());
    let mut first = String::new();
    let mut second = String::new();
    xxd_rs::dump::dump_iterator(&data, &mut first, Config::new()).unwrap();
    xxd_rs::dump::dump_iterator(&data, &mut second, Config::new()).unwrap();
    assert_eq!(first, second);
}

#[test]
fn lowercase_hex_format_uses_lowercase_digits() {
    let data = [0xABu8, 0xCD, 0xEF];
    let output_settings = Config::new().format(Format::Hex);
    let buffer = OutputLine::new(&data).format(output_settings).render();
    assert_eq!("00000000: ab cd ef                 ...", buffer);
}

#[test]
fn decimal_format_uses_three_digit_groups() {
    let data = [0u8, 9, 10, 255];
    let output_settings = Config::new().format(Format::Decimal);
    let buffer = OutputLine::new(&data).format(output_settings).render();
    assert_eq!("00000000: 000 009 010 255                  ....", buffer);
}

#[test]
fn line_without_address_and_interpretation() {
    let data = [0x10u8, 0x20];
    let output_settings = Config::new()
        .show_address(false)
        .show_interpretation(false)
        .separator(false);
    let buffer = OutputLine::new(&data).format(output_settings).render();
    assert_eq!("1020                    ", buffer);
}

#[test]
fn line_with_group_size_two() {
    let data = [0xDEu8, 0xAD, 0xBE, 0xEF];
    let output_settings = Config::new().columns(2).group_size(2);
    let buffer = OutputLine::new(&data).format(output_settings).render();
    assert_eq!("00000000: DEAD BEEF  ....", buffer);
}

#[test]
fn dump_stream_keeps_addresses_increasing() {
    let data: Vec<u8> = (0u8..=255u8).collect();
    let mut buffer = String::new();
    xxd_rs::dump::dump_iterator(&data, &mut buffer, Config::new()).unwrap();
    let lines: Vec<&str> = buffer.lines().collect();
    assert_eq!(32, lines.len());
    for (k, line) in lines.iter().enumerate() {
        let expected_prefix = format!("{:08X}: ", k * 8);
        assert!(line.starts_with(&expected_prefix));
    }
}
