use omnicolor_rust::color::RGB;
use omnicolor_rust::errors::Error;

fn rgb(r: u8, g: u8, b: u8) -> RGB {
    RGB { vals: [r, g, b] }
}

#[test]
fn test_parse_hex_color() {
    assert_eq!(RGB::from_hex_str("#ff6680"), Ok(rgb(255, 102, 128)));
    assert_eq!(RGB::from_hex_str("80ff66"), Ok(rgb(128, 255, 102)));
    assert_eq!(RGB::from_hex_str("##00A1b2"), Ok(rgb(0, 161, 178)));
    assert_eq!(RGB::from_hex_str("000000"), Ok(rgb(0, 0, 0)));

    assert_eq!(RGB::from_hex_str(""), Err(Error::InvalidColor));
    assert_eq!(RGB::from_hex_str("#"), Err(Error::InvalidColor));
    assert_eq!(RGB::from_hex_str("fff"), Err(Error::InvalidColor));
    assert_eq!(RGB::from_hex_str("#ff668"), Err(Error::InvalidColor));
    assert_eq!(RGB::from_hex_str("#ff66801"), Err(Error::InvalidColor));
    assert_eq!(RGB::from_hex_str("#zzzzzz"), Err(Error::InvalidColor));

    // the parser also backs the standard parsing trait
    assert_eq!("#102030".parse::<RGB>(), Ok(rgb(16, 32, 48)));
}
