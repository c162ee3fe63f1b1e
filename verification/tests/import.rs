use splat_render::fields::{coeffs_len_with, parse_index, property_slot, SplatField};
use splat_render::ply::{
    check_number_lines, find_vertex, has_splat_properties, header_len, ply_count, splat_header,
    PlyElement, PlyError,
};

const SPLAT_HEADER: &str = "ply\nformat binary_little_endian 1.0\nelement vertex 42\nproperty float x\nproperty float y\nproperty float z\nproperty float f_dc_0\nproperty float f_dc_1\nproperty float f_dc_2\nproperty float opacity\nproperty float scale_0\nproperty float scale_1\nproperty float scale_2\nproperty float rot_0\nproperty float rot_1\nproperty float rot_2\nproperty float rot_3\nend_header\n";

#[test]
fn splat_header_gives_the_number_of_splats() {
    assert_eq!(splat_header(SPLAT_HEADER.as_bytes()), Ok(42));
}

#[test]
fn splat_header_refuses_a_vertex_element_without_a_required_property() {
    for missing in
        ["x", "y", "z", "scale_0", "scale_1", "scale_2", "opacity", "rot_0", "rot_1", "rot_2", "rot_3"]
    {
        let line = format!("property float {missing}\n");
        let header = SPLAT_HEADER.replace(&line, "");
        assert_eq!(splat_header(header.as_bytes()), Err(PlyError::MissingProperties));
    }
    let header = SPLAT_HEADER.replace("property float f_dc_0\n", "");
    assert_eq!(splat_header(header.as_bytes()), Ok(42));
}

#[test]
fn splat_header_refuses_a_file_without_splats() {
    let header = SPLAT_HEADER.replace("element vertex 42", "element vertex 0");
    assert_eq!(splat_header(header.as_bytes()), Err(PlyError::NoSplats));
    let header = SPLAT_HEADER.replace("element vertex 42", "element point 42");
    assert_eq!(splat_header(header.as_bytes()), Err(PlyError::NoVertexElement));
}

#[test]
fn splat_header_refuses_what_the_parser_cannot_take() {
    assert_eq!(splat_header(b"plyformat"), Err(PlyError::BadHeader));
    let header = SPLAT_HEADER.replace("element vertex 42", "element vertex 123456789012345678901");
    assert_eq!(splat_header(header.as_bytes()), Err(PlyError::NumberTooLong));
}

#[test]
fn required_properties_may_come_in_any_order_among_others() {
    let names: Vec<String> = [
        "rot_3", "nx", "rot_2", "rot_1", "rot_0", "opacity", "scale_2", "scale_1", "scale_0", "z",
        "y", "x", "f_rest_0",
    ]
    .iter()
    .map(|s| s.to_string())
    .collect();
    assert!(has_splat_properties(&names));
    assert!(!has_splat_properties(&names[1..].to_vec()));
    assert!(!has_splat_properties(&Vec::new()));
}

#[test]
fn find_vertex_gives_the_place_of_the_first_vertex_element() {
    let element = |name: &str| PlyElement { name: name.to_owned(), count: 0, properties: Vec::new() };
    assert_eq!(find_vertex(&vec![element("face"), element("vertex"), element("vertex")]), Some(1));
    assert_eq!(find_vertex(&vec![element("face")]), None);
}

#[test]
fn properties_set_the_value_they_name() {
    assert_eq!(property_slot("x"), Some(SplatField::Mean(0)));
    assert_eq!(property_slot("y"), Some(SplatField::Mean(1)));
    assert_eq!(property_slot("z"), Some(SplatField::Mean(2)));
    assert_eq!(property_slot("scale_0"), Some(SplatField::Scale(0)));
    assert_eq!(property_slot("scale_1"), Some(SplatField::Scale(1)));
    assert_eq!(property_slot("scale_2"), Some(SplatField::Scale(2)));
    assert_eq!(property_slot("opacity"), Some(SplatField::Opacity));
    assert_eq!(property_slot("rot_0"), Some(SplatField::Rotation(0)));
    assert_eq!(property_slot("rot_1"), Some(SplatField::Rotation(1)));
    assert_eq!(property_slot("rot_2"), Some(SplatField::Rotation(2)));
    assert_eq!(property_slot("rot_3"), Some(SplatField::Rotation(3)));
    assert_eq!(property_slot("f_dc_0"), Some(SplatField::Coeff(0)));
    assert_eq!(property_slot("f_dc_1"), Some(SplatField::Coeff(1)));
    assert_eq!(property_slot("f_dc_2"), Some(SplatField::Coeff(2)));
}

#[test]
fn higher_coefficients_go_to_their_interleaved_place() {
    assert_eq!(property_slot("f_rest_0"), Some(SplatField::Coeff(3)));
    assert_eq!(property_slot("f_rest_16"), Some(SplatField::Coeff(7)));
    assert_eq!(property_slot("f_rest_44"), Some(SplatField::Coeff(47)));
    assert_eq!(property_slot("f_rest_+1"), Some(SplatField::Coeff(6)));
    assert_eq!(property_slot("f_rest_007"), Some(SplatField::Coeff(24)));
    assert_eq!(
        property_slot("f_rest_4294967295"),
        Some(SplatField::Coeff((4294967295usize % 15 + 1) * 3 + 4294967295usize / 16))
    );
}

#[test]
fn unknown_properties_set_nothing() {
    assert_eq!(property_slot(""), None);
    assert_eq!(property_slot("nx"), None);
    assert_eq!(property_slot("X"), None);
    assert_eq!(property_slot("rot_4"), None);
    assert_eq!(property_slot("f_dc_3"), None);
    assert_eq!(property_slot("f_rest_"), None);
    assert_eq!(property_slot("f_rest_x"), None);
    assert_eq!(property_slot("f_rest_-1"), None);
    assert_eq!(property_slot("f_rest_1 "), None);
    assert_eq!(property_slot("f_rest_4294967296"), None);
    assert_eq!(property_slot("f_rest"), None);
    assert_eq!(property_slot("\u{e9}_rest_1"), None);
}

#[test]
fn parse_index_reads_what_the_standard_parser_reads() {
    for text in ["0", "7", "+7", "0042", "4294967295", "4294967296", "", "+", "-3", "++1", "1+", "12a", " 1", "99999999999999999999999", "\u{663}"] {
        assert_eq!(parse_index(text), text.parse::<u32>().ok(), "{text:?}");
    }
    assert_eq!(parse_index("4294967295"), Some(u32::MAX));
    assert_eq!(parse_index("120"), Some(120));
}

#[test]
fn coefficient_array_grows_to_hold_a_place() {
    assert_eq!(coeffs_len_with(3, 3), 4);
    assert_eq!(coeffs_len_with(3, 47), 48);
    assert_eq!(coeffs_len_with(48, 47), 48);
    assert_eq!(coeffs_len_with(0, 0), 1);
}

#[test]
fn digits_behind_the_header_have_no_part_in_the_count() {
    let ascii = format!("{}0.12345678901234567890123 1 2\n99999999999999999999999999\n", SPLAT_HEADER);
    assert_eq!(ply_count(ascii.as_bytes()), Ok(42));
    assert_eq!(splat_header(ascii.as_bytes()), Ok(42));
    let mut binary = SPLAT_HEADER.as_bytes().to_vec();
    binary.extend_from_slice(&[b'7'; 64]);
    binary.extend_from_slice(b"\nelement vertex 99999999999999999999\n");
    assert_eq!(ply_count(&binary), Ok(42));
    assert_eq!(splat_header(&binary), Ok(42));
}

#[test]
fn long_numbers_in_comments_have_no_part_in_the_count() {
    let header = SPLAT_HEADER.replace(
        "element vertex 42",
        "comment made at 12345678901234567890123456789\nobj_info 00000000000000000000000000000001\nelement vertex 42",
    );
    assert_eq!(ply_count(header.as_bytes()), Ok(42));
    assert_eq!(splat_header(header.as_bytes()), Ok(42));
}

#[test]
fn a_count_that_fits_in_64_bits_is_read_however_it_is_written() {
    let padded = b"ply\nformat ascii 1.0\nelement vertex 00000000000000000003\nend_header\n";
    assert_eq!(ply_count(padded), Ok(3));
    let header = SPLAT_HEADER.replace("element vertex 42", "element vertex 000000000000000000000042");
    assert_eq!(ply_count(header.as_bytes()), Ok(42));
    assert_eq!(splat_header(header.as_bytes()), Ok(42));
    if usize::BITS >= 64 {
        let header = SPLAT_HEADER.replace("element vertex 42", "element vertex 10000000000000000000");
        assert_eq!(ply_count(header.as_bytes()), Ok(10000000000000000000));
        let header = SPLAT_HEADER.replace("element vertex 42", "element vertex 18446744073709551615");
        assert_eq!(ply_count(header.as_bytes()), Ok(18446744073709551615));
        assert_eq!(splat_header(header.as_bytes()), Ok(18446744073709551615));
    }
}

#[test]
fn a_count_beyond_64_bits_is_refused() {
    let header = SPLAT_HEADER.replace("element vertex 42", "element vertex 18446744073709551616");
    assert_eq!(ply_count(header.as_bytes()), Err(PlyError::NumberTooLong));
    assert_eq!(splat_header(header.as_bytes()), Err(PlyError::NumberTooLong));
    let header = SPLAT_HEADER.replace("element vertex 42", "element vertex 99999999999999999999");
    assert_eq!(ply_count(header.as_bytes()), Err(PlyError::NumberTooLong));
    let header = SPLAT_HEADER.replace("element vertex 42", "element\tvertex\t0018446744073709551616");
    assert_eq!(ply_count(header.as_bytes()), Err(PlyError::NumberTooLong));
}

#[test]
fn a_version_is_read_part_by_part() {
    let header = SPLAT_HEADER.replace("1.0", "1.00000000000000000000");
    assert_eq!(ply_count(header.as_bytes()), Ok(42));
    let header = SPLAT_HEADER.replace("1.0", "00000000000000000001.0");
    assert_eq!(ply_count(header.as_bytes()), Ok(42));
    let header = SPLAT_HEADER.replace("1.0", "18446744073709551615.18446744073709551615");
    assert_eq!(ply_count(header.as_bytes()), Ok(42));
    let header = SPLAT_HEADER.replace("1.0", "1.18446744073709551616");
    assert_eq!(ply_count(header.as_bytes()), Err(PlyError::NumberTooLong));
    let header = SPLAT_HEADER.replace("1.0", "18446744073709551616.0");
    assert_eq!(ply_count(header.as_bytes()), Err(PlyError::NumberTooLong));
}

#[test]
fn digits_in_the_name_of_an_element_are_no_number() {
    let header = SPLAT_HEADER.replace(
        "element vertex 42",
        "element v99999999999999999999999999 3\nproperty float x\nelement vertex 42",
    );
    assert_eq!(ply_count(header.as_bytes()), Ok(42));
    let header = SPLAT_HEADER.replace("element vertex 42", "element v00000000000000000000 3");
    assert_eq!(ply_count(header.as_bytes()), Err(PlyError::NoVertexElement));
    let header = SPLAT_HEADER.replace("element vertex 42", "element vertex-99999999999999999999 3");
    assert_eq!(ply_count(header.as_bytes()), Err(PlyError::NoVertexElement));
}

#[test]
fn header_ends_behind_the_first_line_that_starts_with_the_end_word() {
    assert_eq!(header_len(SPLAT_HEADER.as_bytes()), SPLAT_HEADER.len());
    let with_payload = format!("{}payload\nend_header\nmore", SPLAT_HEADER);
    assert_eq!(header_len(with_payload.as_bytes()), SPLAT_HEADER.len());
    assert_eq!(header_len(b"ply\nend_header"), 14);
    assert_eq!(header_len(b"ply\nend_header junk\nrest"), 20);
    assert_eq!(header_len(b"end_header\nrest"), 11);
    assert_eq!(header_len(b"ply\ncomment end_header\nx"), 24);
    assert_eq!(header_len(b"ply\n end_header\nx"), 17);
    assert_eq!(header_len(b"ply\nend_heade"), 13);
    assert_eq!(header_len(b""), 0);
}

#[test]
fn only_lines_that_may_hold_numbers_are_tested() {
    let big = "99999999999999999999";
    assert!(check_number_lines(b""));
    assert!(check_number_lines(format!("comment {big}\n").as_bytes()));
    assert!(check_number_lines(format!(" {big}\nelement vertex 18446744073709551615\n").as_bytes()));
    assert!(!check_number_lines(format!("element vertex {big}\n").as_bytes()));
    assert!(!check_number_lines(format!("ply\nformat ascii 1.{big}").as_bytes()));
    assert!(!check_number_lines(format!("ply\ne {big}").as_bytes()));
    assert!(check_number_lines(format!("ply\ne{big}").as_bytes()));
    assert!(check_number_lines(format!("ply\ne 1844674407370955161\n6 {big}").as_bytes()));
    assert!(check_number_lines(format!("ply\n element vertex {big}").as_bytes()));
}

#[test]
fn a_header_that_never_ends_is_no_header() {
    let open = SPLAT_HEADER.replace("end_header\n", "");
    assert_eq!(ply_count(open.as_bytes()), Err(PlyError::BadHeader));
    let broken = SPLAT_HEADER.replace("end_header\n", "end_header junk\n");
    assert_eq!(ply_count(broken.as_bytes()), Err(PlyError::BadHeader));
}

#[test]
fn long_numbers_in_lines_of_other_kinds_reach_no_number_rule() {
    let big = "99999999999999999999999999";
    for line in [
        format!("comment x\relement vertex {big}"),
        format!(" element vertex {big}"),
        format!("\telement vertex {big}"),
        format!("Element vertex {big}"),
        format!("property float x{big}"),
        format!("property list uchar int {big}"),
        format!("plyelement vertex {big}"),
        format!("obj_info\relement vertex {big}"),
        format!("{big}"),
        format!("comment {big}\r"),
        format!("xformat ascii {big}.{big}"),
    ] {
        let header = format!("ply\nformat ascii 1.0\n{line}\nelement vertex 3\nend_header\n");
        assert!(check_number_lines(header.as_bytes()), "{line:?}");
        let r = ply_count(header.as_bytes());
        assert!(r == Err(PlyError::BadHeader) || r == Ok(3), "{line:?}: {r:?}");
    }
    let first = format!("{big}\nply\nformat ascii 1.0\nelement vertex 3\nend_header\n");
    assert_eq!(ply_count(first.as_bytes()), Err(PlyError::BadHeader));
}
