//! What the catalog hands to the transport: a status, or bytes with the
//! headers that describe them.

use vstd::prelude::*;
use vstd::string::StringExecFns;

verus! {

/// The status of a response.
#[derive(Clone, Copy, Debug, PartialEq, Eq, Structural)]
pub enum Status {
    NoContent,
    Unauthorized,
    NotFound,
    InternalServerError,
}

impl Status {
    /// The status code by its number.
    pub open spec fn code_of(self) -> u16 {
        match self {
            Status::NoContent => 204,
            Status::Unauthorized => 401,
            Status::NotFound => 404,
            Status::InternalServerError => 500,
        }
    }

    /// The status code by its number.
    pub fn code(&self) -> (c: u16)
        ensures
            c == self.code_of(),
    {
        match self {
            Status::NoContent => 204,
            Status::Unauthorized => 401,
            Status::NotFound => 404,
            Status::InternalServerError => 500,
        }
    }
}

/// The kind of content that a response carries.
#[derive(Clone, Copy, Debug, PartialEq, Eq, Structural)]
pub enum ContentType {
    Zip,
    Jpeg,
}

impl ContentType {
    /// The media type by its name.
    pub open spec fn name_of(self) -> Seq<char> {
        match self {
            ContentType::Zip => "application/zip"@,
            ContentType::Jpeg => "image/jpeg"@,
        }
    }

    /// The media type by its name.
    pub fn name(&self) -> (r: String)
        ensures
            r@ == self.name_of(),
    {
        match self {
            ContentType::Zip => "application/zip".to_owned(),
            ContentType::Jpeg => "image/jpeg".to_owned(),
        }
    }
}

/// A response that carries bytes.
#[derive(Debug, PartialEq, Eq)]
pub struct BinaryResponse {
    pub data: Vec<u8>,
    pub content_type: ContentType,
    /// The file name to offer for download, if any.
    pub filename: Option<String>,
}

/// What a `BinaryResponse` holds, as mathematical values.
pub struct BinaryResponseView {
    pub data: Seq<u8>,
    pub content_type: ContentType,
    pub filename: Option<Seq<char>>,
}

impl View for BinaryResponse {
    type V = BinaryResponseView;

    open spec fn view(&self) -> BinaryResponseView {
        BinaryResponseView {
            data: self.data@,
            content_type: self.content_type,
            filename: match self.filename {
                Some(name) => Some(name@),
                None => None,
            },
        }
    }
}

/// The value of the `Content-Disposition` header that offers `filename` for
/// download.
pub open spec fn attachment(filename: Seq<char>) -> Seq<char> {
    "attachment; filename=\""@ + filename + "\""@
}

impl BinaryResponse {
    /// The value of the response's `Content-Disposition` header: present
    /// exactly where the response has a file name.
    pub fn content_disposition(&self) -> (r: Option<String>)
        ensures
            match r {
                Some(value) => self@.filename matches Some(name) && value@ == attachment(name),
                None => self@.filename is None,
            },
    {
        match &self.filename {
            Some(name) => Some(
                "attachment; filename=\"".to_owned().concat(name.as_str()).concat("\""),
            ),
            None => None,
        }
    }

    /// The length of the body.
    pub fn content_length(&self) -> (n: usize)
        ensures
            n == self@.data.len(),
    {
        self.data.len()
    }
}

} // verus!
