use meter_reader::image_op::{parse_op, parse_u32, split_fields, CropField, ImageOp, ParseError};

#[test]
fn the_four_plain_words() {
    assert_eq!("rotate90".parse::<ImageOp>(), Ok(ImageOp::Rotate90));
    assert_eq!("rotate180".parse::<ImageOp>(), Ok(ImageOp::Rotate180));
    assert_eq!("flip-x".parse::<ImageOp>(), Ok(ImageOp::FlipHorizontal));
    assert_eq!("flip-y".parse::<ImageOp>(), Ok(ImageOp::FlipVertical));
}

#[test]
fn a_crop_with_four_numbers() {
    assert_eq!(
        "crop:10:20:300:400".parse::<ImageOp>(),
        Ok(ImageOp::Crop { x: 10, y: 20, w: 300, h: 400 })
    );
    assert_eq!(
        ImageOp::parse("crop:0:0:1000:1000"),
        Ok(ImageOp::Crop { x: 0, y: 0, w: 1000, h: 1000 })
    );
    assert_eq!(
        ImageOp::parse("crop:+1:007:4294967295:0"),
        Ok(ImageOp::Crop { x: 1, y: 7, w: 4294967295, h: 0 })
    );
}

#[test]
fn the_first_bad_number_is_named() {
    assert_eq!(ImageOp::parse("crop:a:b:c:d"), Err(ParseError::BadNumber(CropField::X)));
    assert_eq!(ImageOp::parse("crop:1:b:c:d"), Err(ParseError::BadNumber(CropField::Y)));
    assert_eq!(ImageOp::parse("crop:1:2:c:d"), Err(ParseError::BadNumber(CropField::Width)));
    assert_eq!(ImageOp::parse("crop:1:2:3:d"), Err(ParseError::BadNumber(CropField::Height)));
    assert_eq!(ImageOp::parse("crop::2:3:4"), Err(ParseError::BadNumber(CropField::X)));
    assert_eq!(ImageOp::parse("crop:1:-2:3:4"), Err(ParseError::BadNumber(CropField::Y)));
    assert_eq!(
        ImageOp::parse("crop:1:2:4294967296:4"),
        Err(ParseError::BadNumber(CropField::Width))
    );
    assert_eq!(ImageOp::parse("crop:1:2:3: 4"), Err(ParseError::BadNumber(CropField::Height)));
}

#[test]
fn anything_else_is_unknown() {
    for text in [
        "",
        "rotate",
        "rotate90 ",
        "Rotate90",
        "rotate270",
        "flip",
        "crop",
        "crop:1:2:3",
        "crop:1:2:3:4:5",
        "rotate90:1",
        "cut:1:2:3:4",
        "crop:1:2:3:4:",
        ":",
        "flip-x:",
    ] {
        assert_eq!(ImageOp::parse(text), Err(ParseError::UnknownOperation), "{:?}", text);
    }
}

#[test]
fn bytes_parse_like_text() {
    assert_eq!(parse_op(b"flip-y"), Ok(ImageOp::FlipVertical));
    assert_eq!(parse_op(b"crop:1:2:3:4"), Ok(ImageOp::Crop { x: 1, y: 2, w: 3, h: 4 }));
    assert_eq!(parse_op(&[0xff, 0xfe]), Err(ParseError::UnknownOperation));
}

#[test]
fn fields_are_what_lies_between_separators() {
    assert_eq!(split_fields(b"", b':'), vec![Vec::<u8>::new()]);
    assert_eq!(split_fields(b"abc", b':'), vec![b"abc".to_vec()]);
    assert_eq!(split_fields(b"a:bc", b':'), vec![b"a".to_vec(), b"bc".to_vec()]);
    assert_eq!(split_fields(b":", b':'), vec![Vec::<u8>::new(), Vec::<u8>::new()]);
    assert_eq!(
        split_fields(b"a::b:", b':'),
        vec![b"a".to_vec(), Vec::<u8>::new(), b"b".to_vec(), Vec::<u8>::new()]
    );
    for text in ["", "a", "a:b", ":a:", "crop:1:2:3:4", "::"] {
        let expected: Vec<Vec<u8>> = text.split(':').map(|f| f.as_bytes().to_vec()).collect();
        assert_eq!(split_fields(text.as_bytes(), b':'), expected);
    }
}

#[test]
fn numbers_are_read_as_the_standard_library_reads_them() {
    for text in [
        "0", "7", "42", "+42", "007", "4294967295", "4294967296", "99999999999999999999999", "",
        "+", "-", "-1", "++1", "+-1", "1+", "1 ", " 1", "1_000", "0x10", "12a", "a12", "+0",
    ] {
        assert_eq!(parse_u32(&text.as_bytes().to_vec()), text.parse::<u32>().ok(), "{:?}", text);
    }
}
