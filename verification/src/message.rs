//! The two directions of a header: a request's start line is method, target
//! and version; a response's is version, status code and reason.
use crate::data::{
    decimal_value, typed_view, valid, validate_spec, Ascii, Data, HeaderFieldKey, Integer, Uri,
};
use crate::error::HttpError;
use crate::header::{
    field_spec, field_view, fields_view, parse_spec, serialize_spec, Field, Header, HeaderView,
};
use crate::round_trip::well_formed;
use vstd::prelude::*;

verus! {

/// The status code that the text `code` denotes: its number where it is an
/// unsigned decimal integer of at most 65535, else a protocol violation.
pub open spec fn status_spec(code: Seq<u8>) -> Result<u16, HttpError> {
    if valid::<Integer>(code) && decimal_value(code) <= 0xffff {
        Ok(decimal_value(code) as u16)
    } else {
        Err(HttpError::ProtocolViolation)
    }
}

/// An HTTP request header.
#[derive(Debug)]
pub struct RequestHeader<'a>(Header<'a>);

/// An HTTP response header.
#[derive(Debug)]
pub struct ResponseHeader<'a>(Header<'a>);

impl<'a> View for RequestHeader<'a> {
    type V = HeaderView;

    closed spec fn view(&self) -> HeaderView {
        self.0@
    }
}

impl<'a> View for ResponseHeader<'a> {
    type V = HeaderView;

    closed spec fn view(&self) -> HeaderView {
        self.0@
    }
}

/// The contents of a parsed request.
pub open spec fn request_view<'a>(r: Result<(RequestHeader<'a>, &'a [u8]), HttpError>) -> Result<
    (HeaderView, Seq<u8>),
    HttpError,
> {
    match r {
        Ok((header, body)) => Ok((header@, body@)),
        Err(e) => Err(e),
    }
}

/// The contents of a parsed response.
pub open spec fn response_view<'a>(r: Result<(ResponseHeader<'a>, &'a [u8]), HttpError>) -> Result<
    (HeaderView, Seq<u8>),
    HttpError,
> {
    match r {
        Ok((header, body)) => Ok((header@, body@)),
        Err(e) => Err(e),
    }
}

/// Parses an HTTP request header from `bytes`. Returns the header and the
/// body data that follows it in `bytes`.
pub fn parse_request<'a>(bytes: &'a [u8]) -> (r: Result<(RequestHeader<'a>, &'a [u8]), HttpError>)
    ensures
        request_view(r) == parse_spec(bytes@),
{
    match Header::parse(bytes) {
        Ok((header, body)) => Ok((RequestHeader(header), body)),
        Err(e) => Err(e),
    }
}

/// Parses an HTTP response header from `bytes`. Returns the header and the
/// body data that follows it in `bytes`.
pub fn parse_response<'a>(bytes: &'a [u8]) -> (r: Result<
    (ResponseHeader<'a>, &'a [u8]),
    HttpError,
>)
    ensures
        response_view(r) == parse_spec(bytes@),
{
    match Header::parse(bytes) {
        Ok((header, body)) => Ok((ResponseHeader(header), body)),
        Err(e) => Err(e),
    }
}

impl<'a> RequestHeader<'a> {
    /// The request method: the first token, validated as ASCII text at each
    /// call.
    pub fn method(&self) -> (r: Result<Data<'a, Ascii>, HttpError>)
        ensures
            typed_view(r) == validate_spec::<Ascii>(self@.line.0),
    {
        Data::validate(self.0.line().0)
    }

    /// The requested URI: the second token, validated as a URI at each call.
    pub fn uri(&self) -> (r: Result<Data<'a, Uri>, HttpError>)
        ensures
            typed_view(r) == validate_spec::<Uri>(self@.line.1),
    {
        Data::validate(self.0.line().1)
    }

    /// The HTTP version: the third token, validated as ASCII text at each call.
    pub fn version(&self) -> (r: Result<Data<'a, Ascii>, HttpError>)
        ensures
            typed_view(r) == validate_spec::<Ascii>(self@.line.2),
    {
        Data::validate(self.0.line().2)
    }

    /// The value of the field named `key`, validated as ASCII text at each
    /// call. `None` where no field has that name.
    pub fn field(&self, key: Data<'_, HeaderFieldKey>) -> (r: Option<
        Result<Data<'a, Ascii>, HttpError>,
    >)
        ensures
            field_view(r) == field_spec(self@.fields, key@),
    {
        self.0.field(key)
    }

    /// All header fields, in the order in which their names first occurred.
    pub fn fields(&self) -> (r: &Vec<Field<'a>>)
        ensures
            fields_view(r@) == self@.fields,
            well_formed(self@),
    {
        self.0.fields()
    }

    /// Serializes the header behind what `sink` holds and returns the number
    /// of bytes written.
    pub fn write(&self, sink: &mut Vec<u8>) -> (written: usize)
        ensures
            final(sink)@ == old(sink)@ + serialize_spec(self@),
            written == serialize_spec(self@).len(),
            well_formed(self@),
    {
        self.0.serialize(sink)
    }
}

impl<'a> ResponseHeader<'a> {
    /// The HTTP version: the first token, validated as ASCII text at each call.
    pub fn version(&self) -> (r: Result<Data<'a, Ascii>, HttpError>)
        ensures
            typed_view(r) == validate_spec::<Ascii>(self@.line.0),
    {
        Data::validate(self.0.line().0)
    }

    /// The status code: the second token, validated as a decimal integer and
    /// then against the range of `u16`, at each call.
    pub fn status(&self) -> (r: Result<u16, HttpError>)
        ensures
            r == status_spec(self@.line.1),
    {
        match Data::<Integer>::validate(self.0.line().1) {
            Ok(status) => match status.to_u16() {
                Some(code) => Ok(code),
                None => Err(HttpError::ProtocolViolation),
            },
            Err(e) => Err(e),
        }
    }

    /// The status reason: the third token, validated as ASCII text at each
    /// call.
    pub fn reason(&self) -> (r: Result<Data<'a, Ascii>, HttpError>)
        ensures
            typed_view(r) == validate_spec::<Ascii>(self@.line.2),
    {
        Data::validate(self.0.line().2)
    }

    /// The value of the field named `key`, validated as ASCII text at each
    /// call. `None` where no field has that name.
    pub fn field(&self, key: Data<'_, HeaderFieldKey>) -> (r: Option<
        Result<Data<'a, Ascii>, HttpError>,
    >)
        ensures
            field_view(r) == field_spec(self@.fields, key@),
    {
        self.0.field(key)
    }

    /// All header fields, in the order in which their names first occurred.
    pub fn fields(&self) -> (r: &Vec<Field<'a>>)
        ensures
            fields_view(r@) == self@.fields,
            well_formed(self@),
    {
        self.0.fields()
    }

    /// Serializes the header behind what `sink` holds and returns the number
    /// of bytes written.
    pub fn write(&self, sink: &mut Vec<u8>) -> (written: usize)
        ensures
            final(sink)@ == old(sink)@ + serialize_spec(self@),
            written == serialize_spec(self@).len(),
            well_formed(self@),
    {
        self.0.serialize(sink)
    }
}

} // verus!
