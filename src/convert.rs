use vstd::prelude::*;
use crate::error::ConversionError;
use crate::text::{eq_ignoring_case, same_ignoring_case};

verus! {

/// Converts markup to the structured form.
#[derive(Debug, Clone, Copy)]
pub struct XmlToJson;

/// Converts the structured form to markup.
#[derive(Debug, Clone, Copy)]
pub struct JsonToXml;

impl XmlToJson {
    pub fn new() -> XmlToJson {
        XmlToJson
    }
}

impl JsonToXml {
    pub fn new() -> JsonToXml {
        JsonToXml
    }
}

/// The direction of a conversion.
#[derive(Debug, PartialEq, Eq, Structural, Clone, Copy)]
pub enum Direction {
    MarkupToStructured,
    StructuredToMarkup,
}

pub open spec fn xml_ext() -> Seq<char> {
    seq!['x', 'm', 'l']
}

pub open spec fn json_ext() -> Seq<char> {
    seq!['j', 's', 'o', 'n']
}

fn xml_str() -> (r: &'static str)
    ensures
        r@ == xml_ext(),
{
    let s = "xml";
    proof {
        reveal_strlit("xml");
        assert(s@ =~= xml_ext());
    }
    s
}

fn json_str() -> (r: &'static str)
    ensures
        r@ == json_ext(),
{
    let s = "json";
    proof {
        reveal_strlit("json");
        assert(s@ =~= json_ext());
    }
    s
}

/// Chooses the conversion from the input and output extensions, in any
/// letter case: `xml` to `json` or `json` to `xml`; anything else is
/// refused, as is a path without an extension.
pub fn get_converter(input_ext: Option<&str>, output_ext: Option<&str>) -> (r: Result<Direction, ConversionError>)
    ensures
        match (input_ext, output_ext) {
            (Some(i), Some(o)) => if same_ignoring_case(i@, xml_ext()) && same_ignoring_case(o@, json_ext()) {
                r == Ok::<Direction, ConversionError>(Direction::MarkupToStructured)
            } else if same_ignoring_case(i@, json_ext()) && same_ignoring_case(o@, xml_ext()) {
                r == Ok::<Direction, ConversionError>(Direction::StructuredToMarkup)
            } else {
                r matches Err(ConversionError::InvalidFile(_))
            },
            _ => r matches Err(ConversionError::InvalidFile(_)),
        },
{
    let i = match input_ext {
        Some(i) => i,
        None => {
            return Err(ConversionError::InvalidFile("Input file has no extension".to_owned()));
        },
    };
    let o = match output_ext {
        Some(o) => o,
        None => {
            return Err(ConversionError::InvalidFile("Output file has no extension".to_owned()));
        },
    };
    if eq_ignoring_case(i, xml_str()) && eq_ignoring_case(o, json_str()) {
        Ok(Direction::MarkupToStructured)
    } else if eq_ignoring_case(i, json_str()) && eq_ignoring_case(o, xml_str()) {
        Ok(Direction::StructuredToMarkup)
    } else {
        let mut msg = "Unsupported conversion: ".to_owned();
        msg.append(i);
        msg.append(" to ");
        msg.append(o);
        Err(ConversionError::InvalidFile(msg))
    }
}

/// For a folder conversion: the extension a file is converted to, if its
/// own extension is `xml` or `json` in any letter case.
pub fn counterpart_extension(ext: Option<&str>) -> (r: Option<&'static str>)
    ensures
        match ext {
            Some(e) => if same_ignoring_case(e@, xml_ext()) {
                r matches Some(t) && t@ == json_ext()
            } else if same_ignoring_case(e@, json_ext()) {
                r matches Some(t) && t@ == xml_ext()
            } else {
                r is None
            },
            None => r is None,
        },
{
    match ext {
        Some(e) => {
            if eq_ignoring_case(e, xml_str()) {
                Some(json_str())
            } else if eq_ignoring_case(e, json_str()) {
                Some(xml_str())
            } else {
                None
            }
        },
        None => None,
    }
}

} // verus!
