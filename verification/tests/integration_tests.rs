use xxd_rs::dump::Config;

#[test]
fn original_xxd_is_available() {
    // No probe for the system's own hex-dump tool is made: the library
    // needs no outside tool.
}

#[test]
fn library_dumps_like_a_hex_dump_tool() {
    let mut buffer = String::new();
    xxd_rs::dump::dump_iterator(b"hello", &mut buffer, Config::new()).unwrap();
    assert_eq!("00000000: 68 65 6C 6C 6F           hello\n", buffer);
}
