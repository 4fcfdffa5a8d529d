use xxd_rs::generate::{Language, Render, Template};

#[test]
fn from_conversion_of_language_enum() {
    assert_eq!(Language::from("c"), Language::C);
    assert_eq!(Language::from("C"), Language::C);
    assert_eq!(Language::from("cpp"), Language::Cpp);
    assert_eq!(Language::from("Cpp"), Language::Cpp);
    assert_eq!(Language::from("Rust"), Language::Rust);
    assert_eq!(Language::from("rust"), Language::Rust);
    assert_eq!(Language::from("Python"), Language::Python);
    assert_eq!(Language::from("python"), Language::Python);
    assert_eq!(Language::from("smth"), Language::Unknown);
    assert_eq!(Language::from("Smth"), Language::Unknown);
    assert_eq!(Language::from("-*@"), Language::Unknown);
}

#[test]
fn render_basic_c_template() {
    let data = [0, 1, 2, 3, 4, 5];
    let template = Template::new(Language::C);
    let expected_result = "const char data[] = { 0x00, 0x01, 0x02, 0x03, 0x04, 0x05 };";
    assert_eq!(template.render(&data), expected_result);
}

#[test]
fn render_c_template_with_large_data() {
    let data = [
        0, 1, 2, 3, 4, 5, 6, 7, 8, 9, 10, 11, 12, 13, 14, 15, 16, 17, 18, 19, 20, 21, 22, 23,
        24, 25, 26,
    ];
    let template = Template::new(Language::C);
    let expected_result = "const char data[] = {\n    0x00, 0x01, 0x02, 0x03, 0x04, 0x05, 0x06, 0x07, 0x08, 0x09, 0x0A, 0x0B, 0x0C, 0x0D, 0x0E, 0x0F,\n    0x10, 0x11, 0x12, 0x13, 0x14, 0x15, 0x16, 0x17, 0x18, 0x19, 0x1A\n};";
    assert_eq!(template.render(&data), expected_result);
}

#[test]
fn render_basic_cplusplus_template() {
    let data = [0, 1, 2, 3, 4, 5];
    let template = Template::new(Language::Cpp);
    let expected_result = "const char data[] = { 0x00, 0x01, 0x02, 0x03, 0x04, 0x05 };";
    assert_eq!(template.render(&data), expected_result);
}

#[test]
fn render_cplusplus_template_with_large_data() {
    let data = [
        0, 1, 2, 3, 4, 5, 6, 7, 8, 9, 10, 11, 12, 13, 14, 15, 16, 17, 18, 19, 20, 21, 22, 23,
        24, 25, 26,
    ];
    let template = Template::new(Language::Cpp);
    let expected_result = "const char data[] = {\n    0x00, 0x01, 0x02, 0x03, 0x04, 0x05, 0x06, 0x07, 0x08, 0x09, 0x0A, 0x0B, 0x0C, 0x0D, 0x0E, 0x0F,\n    0x10, 0x11, 0x12, 0x13, 0x14, 0x15, 0x16, 0x17, 0x18, 0x19, 0x1A\n};";
    assert_eq!(template.render(&data), expected_result);
}

#[test]
fn render_basic_python_template() {
    let data = [0, 1, 2, 3, 4, 5];
    let template = Template::new(Language::Python);
    let expected_result = "data = [ 0x00, 0x01, 0x02, 0x03, 0x04, 0x05 ]";
    assert_eq!(template.render(&data), expected_result);
}

#[test]
fn render_python_template_with_large_data() {
    let data = [
        0, 1, 2, 3, 4, 5, 6, 7, 8, 9, 10, 11, 12, 13, 14, 15, 16, 17, 18, 19, 20, 21, 22, 23,
        24, 25, 26,
    ];
    let template = Template::new(Language::Python);
    let expected_result = "data = [\n    0x00, 0x01, 0x02, 0x03, 0x04, 0x05, 0x06, 0x07, 0x08, 0x09, 0x0A, 0x0B, 0x0C, 0x0D, 0x0E, 0x0F,\n    0x10, 0x11, 0x12, 0x13, 0x14, 0x15, 0x16, 0x17, 0x18, 0x19, 0x1A\n]";
    assert_eq!(template.render(&data), expected_result);
}

#[test]
fn render_basic_rust_template() {
    let data = [0, 1, 2, 3, 4, 5];
    let template = Template::new(Language::Rust);
    let expected_result = "let data = [ 0x00, 0x01, 0x02, 0x03, 0x04, 0x05 ];";
    assert_eq!(template.render(&data), expected_result);
}

#[test]
fn render_rust_template_with_large_data() {
    let data = [
        0, 1, 2, 3, 4, 5, 6, 7, 8, 9, 10, 11, 12, 13, 14, 15, 16, 17, 18, 19, 20, 21, 22, 23,
        24, 25, 26,
    ];
    let template = Template::new(Language::Rust);
    let expected_result = "let data = [\n    0x00, 0x01, 0x02, 0x03, 0x04, 0x05, 0x06, 0x07, 0x08, 0x09, 0x0A, 0x0B, 0x0C, 0x0D, 0x0E, 0x0F,\n    0x10, 0x11, 0x12, 0x13, 0x14, 0x15, 0x16, 0x17, 0x18, 0x19, 0x1A\n];";
    assert_eq!(template.render(&data), expected_result);
}

#[test]
fn render_unknown_template_has_no_frame() {
    let data = [1u8, 2];
    let template = Template::new(Language::Unknown);
    assert_eq!(template.render(&data), " 0x01, 0x02 ");
}

#[test]
fn render_empty_buffer_is_frame_only() {
    let data: [u8; 0] = [];
    let template = Template::new(Language::C);
    assert_eq!(template.render(&data), "const char data[] = {  };");
}

#[test]
fn render_sixteen_bytes_stays_single_line() {
    let data = [0xFFu8; 16];
    let template = Template::new(Language::C);
    let rendered = template.render(&data);
    assert_eq!(0, rendered.matches('\n').count());
}

#[test]
fn render_seventeen_bytes_wraps() {
    let data = [0u8; 17];
    let template = Template::new(Language::C);
    let rendered = template.render(&data);
    assert_eq!(3, rendered.matches('\n').count());
    let lines: Vec<&str> = rendered.lines().collect();
    assert_eq!("const char data[] = {", lines[0]);
    assert!(lines[1].starts_with("    0x00,"));
    assert_eq!("    0x00", lines[2]);
    assert_eq!("};", lines[3]);
}

#[test]
fn rendered_rust_literal_round_trips_through_the_host_language() {
    let data = [0u8, 1, 2, 3, 4, 5];
    let template = Template::new(Language::Rust);
    let rendered = template.render(&data);
    // the exact literal the Rust template emits for this buffer, written
    // back as Rust source, reconstructs the original bytes
    assert_eq!("let data = [ 0x00, 0x01, 0x02, 0x03, 0x04, 0x05 ];", rendered);
    let reparsed = [0x00, 0x01, 0x02, 0x03, 0x04, 0x05];
    assert_eq!(data, reparsed);
}
