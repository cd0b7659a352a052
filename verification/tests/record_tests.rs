use bitstream_info::digest::md5_string;
use bitstream_info::error::ParseError;
use bitstream_info::header::{extract_info_seed, skip_preamble, tagged_text};
use bitstream_info::record::{assemble, info, log_entry, parse_named, seed_to_info, Info, HEADER};

fn field(tag: u8, text: &str) -> Vec<u8> {
    let mut out: Vec<u8> = vec![tag];
    let len: u16 = (text.len() + 1) as u16;
    out.extend_from_slice(&len.to_be_bytes());
    out.extend_from_slice(text.as_bytes());
    out.push(0);
    out
}

fn header(block: &[u8], design: &str, device: &str, date: &str, time: &str) -> Vec<u8> {
    let mut out: Vec<u8> = Vec::new();
    let len: u16 = block.len() as u16;
    out.extend_from_slice(&len.to_be_bytes());
    out.extend_from_slice(block);
    out.extend_from_slice(&[0x00, 0x01]);
    out.extend_from_slice(&field(b'a', design));
    out.extend_from_slice(&field(b'b', device));
    out.extend_from_slice(&field(b'c', date));
    out.extend_from_slice(&field(b'd', time));
    out
}

fn sample_header() -> Vec<u8> {
    header(
        &[0x0f, 0xf0, 0x0f, 0xf0, 0x0f, 0xf0, 0x0f, 0xf0, 0x00],
        "top.sub;optA;optB",
        "7a100tcsg324",
        "2023/01/02",
        "03:04:05",
    )
}

fn sample_file() -> Vec<u8> {
    let mut file = sample_header();
    file.extend_from_slice(&[0x65, 0x00, 0x00, 0x00, 0x04, 0xde, 0xad, 0xbe, 0xef]);
    file
}

#[test]
fn skip_preamble_skips_block_and_length() {
    let input: &[u8] = &[0x00, 0x02, 0xaa, 0xbb, 0x12, 0x34, 0x61];
    assert_eq!(skip_preamble(input), Ok(&[0x61u8][..]));
    assert_eq!(skip_preamble(&[0x00, 0x02, 0xaa, 0xbb, 0x12]), Err(ParseError::Truncated));
    assert_eq!(skip_preamble(&[0x00, 0x03, 0xaa, 0xbb]), Err(ParseError::Truncated));
}

#[test]
fn tagged_text_reads_one_field() {
    let input: &[u8] = &[0x62, 0x00, 0x03, 0x78, 0x79, 0x00, 0x63];
    let (rest, text) = tagged_text(input, "b").unwrap();
    assert_eq!(text, "xy\0");
    assert_eq!(rest, &[0x63u8][..]);
    assert_eq!(tagged_text(input, "a"), Err(ParseError::TagMismatch));
}

#[test]
fn extract_info_seed_recovers_raw_fields() {
    let file = sample_file();
    let (design, device, date, body, time) = extract_info_seed(&file).unwrap();
    assert_eq!(design, "top.sub;optA;optB\0");
    assert_eq!(device, "7a100tcsg324\0");
    assert_eq!(date, "2023/01/02\0");
    assert_eq!(time, "03:04:05\0");
    assert_eq!(body, &[0x65u8, 0x00, 0x00, 0x00, 0x04, 0xde, 0xad, 0xbe, 0xef][..]);
}

#[test]
fn extract_info_seed_with_empty_block_and_body() {
    let file = header(&[], "d", "v", "t", "u");
    let (design, device, date, body, time) = extract_info_seed(&file).unwrap();
    assert_eq!(design, "d\0");
    assert_eq!(device, "v\0");
    assert_eq!(date, "t\0");
    assert_eq!(time, "u\0");
    assert!(body.is_empty());
}

#[test]
fn extract_info_seed_wrong_tag() {
    let mut file = sample_file();
    let at: usize = 2 + 9 + 2 + field(b'a', "top.sub;optA;optB").len();
    assert_eq!(file[at], b'b');
    file[at] = b'x';
    assert_eq!(extract_info_seed(&file), Err(ParseError::TagMismatch));
}

#[test]
fn extract_info_seed_invalid_text() {
    let mut file = sample_file();
    let at = file.iter().position(|b| *b == b't').unwrap();
    file[at] = 0xff;
    assert_eq!(extract_info_seed(&file), Err(ParseError::InvalidText));
}

#[test]
fn info_recovers_fields_and_body() {
    let file = sample_file();
    let (body, record) = info(&file).unwrap();
    assert_eq!(body, &file[sample_header().len()..]);
    assert_eq!(record.path, None);
    assert_eq!(record.design, "top");
    assert_eq!(record.options, vec!["optA", "optB"]);
    assert_eq!(record.device, "7a100tcsg324");
    assert_eq!(record.datetime, "2023/01/02 03:04:05");
}

#[test]
fn info_digests_cover_body_and_whole_file() {
    let file = sample_file();
    let (body, record) = info(&file).unwrap();
    assert_eq!(record.md5_full_file, format!("{:x}", md5::compute(&file)));
    assert_eq!(record.md5_body_section, format!("{:x}", md5::compute(body)));
    assert_eq!(
        record.md5_body_section,
        format!("{:x}", md5::compute([0x65u8, 0x00, 0x00, 0x00, 0x04, 0xde, 0xad, 0xbe, 0xef]))
    );
    assert_ne!(record.md5_full_file, record.md5_body_section);
}

#[test]
fn design_with_sub_and_options() {
    let record = assemble(
        "top.sub;optA;optB\0".to_string(),
        "dev\0".to_string(),
        "date\0".to_string(),
        "time\0".to_string(),
        "b".to_string(),
        "f".to_string(),
    )
    .unwrap();
    assert_eq!(record.design, "top");
    assert_eq!(record.options, vec!["optA", "optB"]);
}

#[test]
fn design_without_semicolon_has_no_options() {
    let record = assemble(
        "top.sub\0".to_string(),
        "dev\0".to_string(),
        "date\0".to_string(),
        "time\0".to_string(),
        "b".to_string(),
        "f".to_string(),
    )
    .unwrap();
    assert_eq!(record.design, "top");
    assert!(record.options.is_empty());
}

#[test]
fn design_without_dot_is_taken_whole() {
    let record = assemble(
        "top;UserID=0xFFFFFFFF\0".to_string(),
        "dev\0".to_string(),
        "date\0".to_string(),
        "time\0".to_string(),
        "b".to_string(),
        "f".to_string(),
    )
    .unwrap();
    assert_eq!(record.design, "top;UserID=0xFFFFFFFF");
    assert_eq!(record.options, vec!["UserID=0xFFFFFFFF"]);
}

#[test]
fn assemble_keeps_digests_and_joins_date_and_time() {
    let record = assemble(
        "d\0".to_string(),
        "xc7\0".to_string(),
        "2020/12/31\0".to_string(),
        "23:59:59\0".to_string(),
        "body".to_string(),
        "full".to_string(),
    )
    .unwrap();
    assert_eq!(record.path, None);
    assert_eq!(record.design, "d");
    assert_eq!(record.device, "xc7");
    assert_eq!(record.datetime, "2020/12/31 23:59:59");
    assert_eq!(record.md5_body_section, "body");
    assert_eq!(record.md5_full_file, "full");
}

#[test]
fn truncated_header_is_a_parse_error() {
    let file = sample_file();
    let header_len: usize = sample_header().len();
    for n in 0..header_len {
        assert!(info(&file[..n]).is_err(), "prefix of {} bytes", n);
        assert!(extract_info_seed(&file[..n]).is_err(), "prefix of {} bytes", n);
    }
    assert!(info(&file[..header_len]).is_ok());
}

#[test]
fn lone_nul_field_is_a_parse_error() {
    let cases = vec![
        header(&[1, 2], "", "dev", "date", "time"),
        header(&[1, 2], "top", "", "date", "time"),
        header(&[1, 2], "top", "dev", "", "time"),
        header(&[1, 2], "top", "dev", "date", ""),
    ];
    for file in cases.iter() {
        assert!(extract_info_seed(file).is_ok());
        assert!(matches!(info(file), Err(ParseError::EmptyField)));
    }
}

#[test]
fn zero_length_field_is_a_parse_error() {
    let mut file: Vec<u8> = vec![0x00, 0x00, 0x00, 0x00];
    file.extend_from_slice(&[b'a', 0x00, 0x00]);
    file.extend_from_slice(&field(b'b', "dev"));
    file.extend_from_slice(&field(b'c', "date"));
    file.extend_from_slice(&field(b'd', "time"));
    assert!(matches!(info(&file), Err(ParseError::EmptyField)));
}

#[test]
fn seed_to_info_hashes_what_it_is_given() {
    let body: Vec<u8> = vec![1, 2, 3];
    let whole: Vec<u8> = vec![9, 9, 1, 2, 3];
    let (rest, record) = seed_to_info(
        "top\0".to_string(),
        &body,
        "dev\0".to_string(),
        "date\0".to_string(),
        "time\0".to_string(),
        &whole,
    )
    .unwrap();
    assert_eq!(rest, &body[..]);
    assert_eq!(record.md5_body_section, md5_string(&body));
    assert_eq!(record.md5_full_file, md5_string(&whole));
    assert_eq!(record.md5_body_section, "5289df737df57326fcdd22597afb1fac");
    assert_eq!(record.datetime, "date time");
}

#[test]
fn seed_to_info_refuses_short_fields() {
    let r = seed_to_info(
        "top\0".to_string(),
        &[],
        "\0".to_string(),
        "date\0".to_string(),
        "time\0".to_string(),
        &[],
    );
    assert!(matches!(r, Err(ParseError::EmptyField)));
}

fn sample_record() -> Info {
    Info {
        path: None,
        design: "top".to_string(),
        options: vec!["optA".to_string(), "optB".to_string()],
        device: "dev".to_string(),
        datetime: "2023/01/02 03:04:05".to_string(),
        md5_body_section: "bbbb".to_string(),
        md5_full_file: "ffff".to_string(),
    }
}

#[test]
fn csv_line_without_path() {
    assert_eq!(
        sample_record().to_csv_line(),
        ",2023/01/02 03:04:05,top,dev,ffff,bbbb,optA;optB,"
    );
}

#[test]
fn csv_line_with_path_and_no_options() {
    let mut record = sample_record().with_path("x.bit".to_string());
    record.options = vec![];
    assert_eq!(record.to_csv_line(), "x.bit,2023/01/02 03:04:05,top,dev,ffff,bbbb,,");
}

#[test]
fn with_path_changes_only_the_path() {
    let record = sample_record().with_path("x.bit".to_string());
    assert_eq!(record.path, Some("x.bit".to_string()));
    assert_eq!(record.design, "top");
    assert_eq!(record.options, vec!["optA", "optB"]);
    assert_eq!(record.device, "dev");
    assert_eq!(record.datetime, "2023/01/02 03:04:05");
    assert_eq!(record.md5_body_section, "bbbb");
    assert_eq!(record.md5_full_file, "ffff");
}

#[test]
fn parse_named_sets_the_path() {
    let file = sample_file();
    let record = parse_named("sample.bit", &file).unwrap();
    assert_eq!(record.path, Some("sample.bit".to_string()));
    assert_eq!(record.design, "top");
    assert_eq!(record.md5_full_file, md5_string(&file));
    assert!(parse_named("sample.bit", &file[..10]).is_err());
}

#[test]
fn log_entry_for_a_new_file_has_header_and_row() {
    let text = log_entry(false, "row,");
    assert_eq!(
        text,
        "path,compiled date,top,device,full file md5,body section md5,option,memo,\nrow,\n"
    );
    assert_eq!(text.lines().count(), 2);
    assert_eq!(text.lines().next(), Some(HEADER));
}

#[test]
fn log_entry_for_an_existing_file_has_the_row_only() {
    let text = log_entry(true, "row,");
    assert_eq!(text, "row,\n");
    let mut log = log_entry(false, "first,");
    log.push_str(&text);
    assert_eq!(log.lines().count(), 3);
}

#[test]
fn end_to_end_row_of_a_minimal_file() {
    let file = header(&[], "t", "d", "1", "2");
    let record = parse_named("m.bit", &file).unwrap();
    let empty_digest = "d41d8cd98f00b204e9800998ecf8427e";
    assert_eq!(record.md5_body_section, empty_digest);
    assert_eq!(
        record.to_csv_line(),
        format!("m.bit,1 2,t,d,{},{},,", md5_string(&file), empty_digest)
    );
}
