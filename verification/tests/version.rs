use kassigner::version::{
    parse_u8_const, DISPLAY_LABEL, MAJOR, MINOR, NUMERIC, PATCH, STRING,
};

#[test]
fn components_are_parsed() {
    assert_eq!(parse_u8_const("0"), 0);
    assert_eq!(parse_u8_const("7"), 7);
    assert_eq!(parse_u8_const("042"), 42);
    assert_eq!(parse_u8_const("255"), 255);
}

#[test]
fn version_is_consistent() {
    let parts: Vec<u8> = STRING.split('.').map(parse_u8_const).collect();
    assert_eq!(parts, vec![MAJOR, MINOR, PATCH]);
    assert_eq!(NUMERIC, 10004);
    assert_eq!(DISPLAY_LABEL, "1.0-brt-fork");
}
