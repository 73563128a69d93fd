//! The results of a text recognition service, and the choice of the line
//! that names the inspected item.

use vstd::prelude::*;
use vstd::utf8::encode_utf8;

verus! {

#[verifier::external_type_specification]
#[verifier::external_body]
pub struct ExJsonValue(serde_json::Value);

/// The whole answer of the recognition service.
pub struct Root {
    pub parsed_results: Vec<ParsedResult>,
    pub ocrexit_code: i64,
    pub is_errored_on_processing: bool,
    pub processing_time_in_milliseconds: String,
    pub searchable_pdfurl: Option<String>,
}

/// What the service recognised in one image.
pub struct ParsedResult {
    pub text_overlay: TextOverlay,
    pub text_orientation: String,
    pub file_parse_exit_code: i64,
    pub parsed_text: String,
    pub error_message: String,
    pub error_details: String,
}

/// The positions of the recognised lines, as the service reports them.
pub struct TextOverlay {
    pub lines: Vec<serde_json::Value>,
    pub has_overlay: bool,
    pub message: String,
}

/// Whether `line` is long enough to be taken for recognised text: more than
/// one byte in UTF-8.
pub open spec fn is_valid_line(line: Seq<char>) -> bool {
    encode_utf8(line).len() > 1
}

/// The first recognised line that is more than one byte long in UTF-8;
/// shorter ones are most likely spurious.
pub fn first_valid_line(lines: &Vec<String>) -> (r: Option<String>)
    ensures
        r is None <==> forall|i: int| 0 <= i < lines@.len() ==> !is_valid_line(#[trigger] lines@[i]@),
        r is Some ==> exists|i: int|
            0 <= i < lines@.len() && r->0@ == lines@[i]@ && is_valid_line(lines@[i]@) && forall|
                j: int,
            |
                0 <= j < i ==> !is_valid_line(#[trigger] lines@[j]@),
{
    let mut i: usize = 0;
    while i < lines.len()
        invariant
            i <= lines@.len(),
            forall|j: int| 0 <= j < i ==> !is_valid_line(#[trigger] lines@[j]@),
        decreases lines@.len() - i,
    {
        if lines[i].as_str().as_bytes().len() > 1 {
            return Some(lines[i].clone());
        }
        i = i + 1;
    }
    None
}

} // verus!
