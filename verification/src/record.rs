//! The record that a bitstream file yields, how it is assembled from the raw
//! header fields, and how it is written as a CSV row.

use crate::digest::{hex, md5_of, md5_string};
use crate::error::ParseError;
use crate::header::{extract_info_seed, spec_extract_info_seed};
use crate::text::{
    join, join_texts, lemma_split_nonempty, push_char, spec_trim_zero, split, split_text, texts,
    trim_zero,
};
use vstd::prelude::*;
use vstd::string::*;

verus! {

/// The first line of a freshly created log file.
pub const HEADER: &'static str =
    "path,compiled date,top,device,full file md5,body section md5,option,memo,";

/// What is known of one bitstream file.
#[derive(Debug, Clone)]
pub struct Info {
    /// Base name of the file; absent when the bytes came from memory.
    pub path: Option<String>,
    /// Top-level design name.
    pub design: String,
    /// Options that follow the design name, in the order in which they stand in the file.
    pub options: Vec<String>,
    /// Target device.
    pub device: String,
    /// Compile date and time, separated by one space.
    pub datetime: String,
    /// Digest of the body, in lowercase hexadecimal.
    pub md5_body_section: String,
    /// Digest of the whole file, in lowercase hexadecimal.
    pub md5_full_file: String,
}

/// The mathematical content of an [`Info`].
pub struct InfoView {
    pub path: Option<Seq<char>>,
    pub design: Seq<char>,
    pub options: Seq<Seq<char>>,
    pub device: Seq<char>,
    pub datetime: Seq<char>,
    pub md5_body_section: Seq<char>,
    pub md5_full_file: Seq<char>,
}

impl View for Info {
    type V = InfoView;

    open spec fn view(&self) -> InfoView {
        InfoView {
            path: match self.path {
                Some(p) => Some(p@),
                None => None,
            },
            design: self.design@,
            options: texts(self.options@),
            device: self.device@,
            datetime: self.datetime@,
            md5_body_section: self.md5_body_section@,
            md5_full_file: self.md5_full_file@,
        }
    }
}

/// The top-level design name: the text in front of the first `.`.
pub open spec fn spec_top_design(design: Seq<char>) -> Seq<char> {
    split(design, '.')[0]
}

/// The options: every `;`-separated segment but the first.
pub open spec fn spec_options(design: Seq<char>) -> Seq<Seq<char>> {
    split(design, ';').skip(1)
}

/// Date and time joined by one space.
pub open spec fn spec_datetime(date: Seq<char>, time: Seq<char>) -> Seq<char> {
    date.push(' ') + time
}

/// The record that the raw fields and the two digests give, or the error
/// where a field has nothing in front of its final character.
pub open spec fn spec_assemble(
    design: Seq<char>,
    device: Seq<char>,
    date: Seq<char>,
    time: Seq<char>,
    md5_body_section: Seq<char>,
    md5_full_file: Seq<char>,
) -> Result<InfoView, ParseError> {
    if design.len() < 2 || device.len() < 2 || date.len() < 2 || time.len() < 2 {
        Err(ParseError::EmptyField)
    } else {
        Ok(
            InfoView {
                path: None,
                design: spec_top_design(design.drop_last()),
                options: spec_options(design.drop_last()),
                device: device.drop_last(),
                datetime: spec_datetime(date.drop_last(), time.drop_last()),
                md5_body_section,
                md5_full_file,
            },
        )
    }
}

/// The record of a whole file.
pub open spec fn spec_info(file: Seq<u8>) -> Result<InfoView, ParseError> {
    match spec_extract_info_seed(file) {
        Err(e) => Err(e),
        Ok((design, device, date, body, time)) => spec_assemble(
            design,
            device,
            date,
            time,
            hex(md5_of(body)),
            hex(md5_of(file)),
        ),
    }
}

/// The body of a whole file: what follows the last header field.
pub open spec fn spec_body(file: Seq<u8>) -> Seq<u8>
    recommends
        spec_extract_info_seed(file) is Ok,
{
    spec_extract_info_seed(file)->Ok_0.3
}

/// One CSV cell: the text and the comma that closes it.
pub open spec fn cell(s: Seq<char>) -> Seq<char> {
    s.push(',')
}

/// The CSV row of a record, without a line end.
pub open spec fn spec_csv(v: InfoView) -> Seq<char> {
    cell(
        match v.path {
            Some(p) => p,
            None => Seq::<char>::empty(),
        },
    ) + cell(v.datetime) + cell(v.design) + cell(v.device) + cell(v.md5_full_file) + cell(
        v.md5_body_section,
    ) + cell(join(v.options, ';'))
}

/// What is appended to the log file for one row: the row and a line end, and
/// in front of them the header line where the file did not exist before.
pub open spec fn spec_log_entry(file_exists: bool, row: Seq<char>) -> Seq<char> {
    if file_exists {
        row.push('\n')
    } else {
        HEADER@.push('\n') + row.push('\n')
    }
}

/// Normalises the raw header fields and combines them with the two digests.
///
/// Every field loses its final character. The design name is the text in
/// front of the first `.`; the options are the `;`-separated segments after
/// the first one.
pub fn assemble(
    design: String,
    device: String,
    date: String,
    time: String,
    md5_body_section: String,
    md5_full_file: String,
) -> (r: Result<Info, ParseError>)
    ensures
        match r {
            Ok(info) => spec_assemble(
                design@,
                device@,
                date@,
                time@,
                md5_body_section@,
                md5_full_file@,
            ) == Ok::<_, ParseError>(info@),
            Err(e) => spec_assemble(
                design@,
                device@,
                date@,
                time@,
                md5_body_section@,
                md5_full_file@,
            ) == Err::<InfoView, _>(e),
        },
{
    let design = match trim_zero(design) {
        Ok(x) => x,
        Err(e) => { return Err(e); },
    };
    let device = match trim_zero(device) {
        Ok(x) => x,
        Err(e) => { return Err(e); },
    };
    let date = match trim_zero(date) {
        Ok(x) => x,
        Err(e) => { return Err(e); },
    };
    let time = match trim_zero(time) {
        Ok(x) => x,
        Err(e) => { return Err(e); },
    };
    let by_dot = split_text(design.as_str(), '.');
    proof {
        lemma_split_nonempty(design@, '.');
        lemma_split_nonempty(design@, ';');
    }
    let top_design = by_dot[0].clone();
    let mut options = split_text(design.as_str(), ';');
    let ghost all = options@;
    options.remove(0);
    assert(texts(options@) =~= texts(all).skip(1));
    let mut datetime = date;
    push_char(&mut datetime, ' ');
    datetime.append(time.as_str());
    Ok(
        Info {
            path: None,
            design: top_design,
            options,
            device,
            datetime,
            md5_body_section,
            md5_full_file,
        },
    )
}

/// Builds the record from the raw header fields, the body and the whole file.
///
/// The body digest is taken over `pure_body`, the file digest over
/// `entire_file`, whatever the header walk consumed. The body is handed back
/// beside the record.
pub fn seed_to_info<'a>(
    design: String,
    pure_body: &'a [u8],
    device: String,
    date: String,
    time: String,
    entire_file: &'a [u8],
) -> (r: Result<(&'a [u8], Info), ParseError>)
    ensures
        match r {
            Ok((rest, info)) => {
                &&& rest@ == pure_body@
                &&& spec_assemble(
                    design@,
                    device@,
                    date@,
                    time@,
                    hex(md5_of(pure_body@)),
                    hex(md5_of(entire_file@)),
                ) == Ok::<_, ParseError>(info@)
                &&& info.md5_body_section@.len() == 32
                &&& info.md5_full_file@.len() == 32
            },
            Err(e) => spec_assemble(
                design@,
                device@,
                date@,
                time@,
                hex(md5_of(pure_body@)),
                hex(md5_of(entire_file@)),
            ) == Err::<InfoView, _>(e),
        },
{
    let md5_body_section = md5_string(pure_body);
    let md5_full_file = md5_string(entire_file);
    match assemble(design, device, date, time, md5_body_section, md5_full_file) {
        Ok(info) => Ok((pure_body, info)),
        Err(e) => Err(e),
    }
}

/// Parses a whole bitstream file held in memory.
///
/// Returns the body and the record, or the error of the first step that
/// fails; no partial record is ever returned.
pub fn info(full_file: &[u8]) -> (r: Result<(&[u8], Info), ParseError>)
    ensures
        match r {
            Ok((body, info)) => {
                &&& spec_info(full_file@) == Ok::<_, ParseError>(info@)
                &&& body@ == spec_body(full_file@)
                &&& info.md5_body_section@.len() == 32
                &&& info.md5_full_file@.len() == 32
            },
            Err(e) => spec_info(full_file@) == Err::<InfoView, _>(e),
        },
{
    let (design, device, date, body_only, time) = match extract_info_seed(full_file) {
        Ok(x) => x,
        Err(e) => { return Err(e); },
    };
    seed_to_info(design, body_only, device, date, time, full_file)
}

impl Info {
    /// The same record, named after the file it was read from.
    pub fn with_path(self, file_name: String) -> (r: Info)
        ensures
            r@ == (InfoView { path: Some(file_name@), ..self@ }),
    {
        Info {
            path: Some(file_name),
            design: self.design,
            options: self.options,
            device: self.device,
            datetime: self.datetime,
            md5_body_section: self.md5_body_section,
            md5_full_file: self.md5_full_file,
        }
    }

    /// The record as one CSV row, without a line end: path, date and time,
    /// design, device, file digest, body digest and the options joined by
    /// `;`, each closed by a comma.
    pub fn to_csv_line(&self) -> (out: String)
        ensures
            out@ == spec_csv(self@),
    {
        let mut out = String::new();
        match &self.path {
            Some(p) => {
                out.append(p.as_str());
            },
            None => {},
        }
        push_char(&mut out, ',');
        out.append(self.datetime.as_str());
        push_char(&mut out, ',');
        out.append(self.design.as_str());
        push_char(&mut out, ',');
        out.append(self.device.as_str());
        push_char(&mut out, ',');
        out.append(self.md5_full_file.as_str());
        push_char(&mut out, ',');
        out.append(self.md5_body_section.as_str());
        push_char(&mut out, ',');
        let joined = join_texts(&self.options, ';');
        out.append(joined.as_str());
        push_char(&mut out, ',');
        assert(out@ =~= spec_csv(self@));
        out
    }
}

/// Parses a bitstream file that was read from disk and names the record
/// after the file.
pub fn parse_named(file_name: &str, full_file: &[u8]) -> (r: Result<Info, ParseError>)
    ensures
        match r {
            Ok(info) => spec_info(full_file@) is Ok && info@ == (InfoView {
                path: Some(file_name@),
                ..spec_info(full_file@)->Ok_0
            }),
            Err(e) => spec_info(full_file@) == Err::<InfoView, _>(e),
        },
{
    match info(full_file) {
        Ok((_, parsed)) => Ok(parsed.with_path(String::from_str(file_name))),
        Err(e) => Err(e),
    }
}

/// The text to append to the log file for one row.
pub fn log_entry(file_exists: bool, row: &str) -> (out: String)
    ensures
        out@ == spec_log_entry(file_exists, row@),
{
    let mut out = String::new();
    if !file_exists {
        out.append(HEADER);
        push_char(&mut out, '\n');
    }
    out.append(row);
    push_char(&mut out, '\n');
    assert(out@ =~= spec_log_entry(file_exists, row@));
    out
}

} // verus!
