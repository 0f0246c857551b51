//! The header itself: its grammar as a function on bytes, the parser and the
//! serializer, and the request and response views.
use crate::data::{typed_view, valid, validate_spec, Ascii, Data, HeaderFieldKey};
use crate::error::HttpError;
use crate::scan::{
    collect_exact, collect_min, first_match, lemma_first_match, split, split_n, split_n_spec,
    split_spec, trim, trim_spec, views,
};
use crate::round_trip::{lemma_parsed_is_well_formed, well_formed};
use crate::scan_lemmas::lemma_split_nonempty;
use vstd::prelude::*;

verus! {

/// A single space, which parts the tokens of the start line.
pub open spec fn space() -> Seq<u8> {
    seq![0x20u8]
}

/// A colon, which ends a field name.
pub open spec fn colon() -> Seq<u8> {
    seq![0x3au8]
}

/// A colon and a space, written between a field's name and its value.
pub open spec fn separator() -> Seq<u8> {
    seq![0x3au8, 0x20u8]
}

/// Carriage return and line feed, which end a line.
pub open spec fn newline() -> Seq<u8> {
    seq![0x0du8, 0x0au8]
}

/// The empty line that ends a header block: two line ends in a row.
pub open spec fn terminator() -> Seq<u8> {
    seq![0x0du8, 0x0au8, 0x0du8, 0x0au8]
}

/// A name with its value.
pub type FieldView = (Seq<u8>, Seq<u8>);

/// A header as plain values: the three tokens of its start line, and its
/// fields in the order in which their names first occurred.
pub struct HeaderView {
    pub line: (Seq<u8>, Seq<u8>, Seq<u8>),
    pub fields: Seq<FieldView>,
}

/// The index of the first field named `key`.
pub open spec fn index_of(fields: Seq<FieldView>, key: Seq<u8>) -> Option<int>
    decreases fields.len(),
{
    if fields.len() == 0 {
        None
    } else {
        match index_of(fields.drop_last(), key) {
            Some(i) => Some(i),
            None => if fields.last().0 == key {
                Some(fields.len() - 1)
            } else {
                None
            },
        }
    }
}

/// The value of the field named `key`, if there is one.
pub open spec fn lookup(fields: Seq<FieldView>, key: Seq<u8>) -> Option<Seq<u8>> {
    match index_of(fields, key) {
        Some(i) => Some(fields[i].1),
        None => None,
    }
}

/// The fields after `key` was given `value`: a field of that name gets the
/// new value in its place, a new name goes to the end.
pub open spec fn insert_field(fields: Seq<FieldView>, key: Seq<u8>, value: Seq<u8>) -> Seq<
    FieldView,
> {
    match index_of(fields, key) {
        Some(i) => fields.update(i, (key, value)),
        None => fields.push((key, value)),
    }
}

/// The start line's three tokens: the line is trimmed and split at every
/// space, and must then have exactly three pieces.
pub open spec fn parse_start_line(line: Seq<u8>) -> Result<(Seq<u8>, Seq<u8>, Seq<u8>), HttpError> {
    let tokens = split_spec(trim_spec(line), space());
    if tokens.len() == 3 {
        Ok((tokens[0], tokens[1], tokens[2]))
    } else {
        Err(HttpError::ProtocolViolation)
    }
}

/// A field line's name and value: the line is split at its first colon, the
/// name must be a header field name as it stands, and the value is trimmed.
pub open spec fn parse_field_line(line: Seq<u8>) -> Result<FieldView, HttpError> {
    match first_match(line, colon()) {
        None => Err(HttpError::ProtocolViolation),
        Some(i) => if valid::<HeaderFieldKey>(line.subrange(0, i)) {
            Ok((line.subrange(0, i), trim_spec(line.subrange(i + 1, line.len() as int))))
        } else {
            Err(HttpError::ProtocolViolation)
        },
    }
}

/// The fields that a run of field lines gives, read from first to last, a
/// later line of the same name replacing the value of an earlier one.
pub open spec fn parse_fields(lines: Seq<Seq<u8>>) -> Result<Seq<FieldView>, HttpError>
    decreases lines.len(),
{
    if lines.len() == 0 {
        Ok(Seq::empty())
    } else {
        match parse_fields(lines.drop_last()) {
            Err(e) => Err(e),
            Ok(fields) => match parse_field_line(lines.last()) {
                Err(e) => Err(e),
                Ok((key, value)) => Ok(insert_field(fields, key, value)),
            },
        }
    }
}

/// The header that a header block denotes: its first line is the start line,
/// every other line a field line.
pub open spec fn parse_block(block: Seq<u8>) -> Result<HeaderView, HttpError> {
    let lines = split_spec(block, newline());
    match parse_start_line(lines.first()) {
        Err(e) => Err(e),
        Ok(line) => match parse_fields(lines.subrange(1, lines.len() as int)) {
            Err(e) => Err(e),
            Ok(fields) => Ok(HeaderView { line, fields }),
        },
    }
}

/// What parsing `bytes` gives: the header block is what stands before the
/// first terminator, the body what stands behind it. Without a terminator the
/// data is truncated.
pub open spec fn parse_spec(bytes: Seq<u8>) -> Result<(HeaderView, Seq<u8>), HttpError> {
    match first_match(bytes, terminator()) {
        None => Err(HttpError::TruncatedData),
        Some(end) => match parse_block(bytes.subrange(0, end)) {
            Err(e) => Err(e),
            Ok(header) => Ok((header, bytes.subrange(end + 4, bytes.len() as int))),
        },
    }
}

/// The bytes of the field lines, each as name, colon, space, value, line end.
pub open spec fn serialize_fields(fields: Seq<FieldView>) -> Seq<u8>
    decreases fields.len(),
{
    if fields.len() == 0 {
        Seq::empty()
    } else {
        serialize_fields(fields.drop_last()) + fields.last().0 + separator() + fields.last().1
            + newline()
    }
}

/// The bytes of a header: the start line's tokens with a space between them,
/// the field lines, and an empty line.
pub open spec fn serialize_spec(header: HeaderView) -> Seq<u8> {
    header.line.0 + space() + header.line.1 + space() + header.line.2 + newline()
        + serialize_fields(header.fields) + newline()
}

/// Splitting into at most two pieces is splitting at the first occurrence.
pub proof fn lemma_split_two(s: Seq<u8>, pat: Seq<u8>)
    ensures
        split_n_spec(s, pat, 2) == match first_match(s, pat) {
            None => seq![s],
            Some(i) => seq![s.subrange(0, i), s.subrange(i + pat.len(), s.len() as int)],
        },
{
    match first_match(s, pat) {
        None => {},
        Some(i) => {
            let tail = s.subrange(i + pat.len(), s.len() as int);
            assert(split_n_spec(tail, pat, 1) == seq![tail]);
            assert(seq![s.subrange(0, i)] + seq![tail] =~= seq![s.subrange(0, i), tail]);
        },
    }
}

/// Field lines fail in one way only.
pub proof fn lemma_fields_error_kind(lines: Seq<Seq<u8>>)
    ensures
        parse_fields(lines) matches Err(e) ==> e == HttpError::ProtocolViolation,
    decreases lines.len(),
{
    if lines.len() > 0 {
        lemma_fields_error_kind(lines.drop_last());
    }
}

/// Once a field line is in error, the lines that follow do not mend it.
pub proof fn lemma_fields_error_persists(lines: Seq<Seq<u8>>, k: int)
    requires
        0 <= k <= lines.len(),
        parse_fields(lines.subrange(0, k)) is Err,
    ensures
        parse_fields(lines) == Err::<Seq<FieldView>, _>(HttpError::ProtocolViolation),
    decreases lines.len() - k,
{
    lemma_fields_error_kind(lines);
    if k == lines.len() {
        assert(lines.subrange(0, k) =~= lines);
    } else {
        assert(lines.drop_last().subrange(0, k) =~= lines.subrange(0, k));
        lemma_fields_error_persists(lines.drop_last(), k);
    }
}

/// `index_of` gives the first field of that name, and `None` only where no
/// field has it.
pub proof fn lemma_index_of(fields: Seq<FieldView>, key: Seq<u8>)
    ensures
        match index_of(fields, key) {
            Some(i) => 0 <= i < fields.len() && fields[i].0 == key && forall|j: int|
                0 <= j < i ==> fields[j].0 != key,
            None => forall|j: int| 0 <= j < fields.len() ==> fields[j].0 != key,
        },
    decreases fields.len(),
{
    if fields.len() > 0 {
        lemma_index_of(fields.drop_last(), key);
        assert forall|j: int| 0 <= j < fields.len() - 1 implies fields.drop_last()[j]
            == fields[j] by {}
    }
}

/// A stored field: its validated name and its value as it stood in the
/// buffer, trimmed.
pub type Field<'a> = (Data<'a, HeaderFieldKey>, &'a [u8]);

/// The stored fields as plain values.
pub open spec fn fields_view<'a>(fields: Seq<Field<'a>>) -> Seq<FieldView> {
    Seq::new(fields.len(), |i: int| (fields[i].0@, fields[i].1@))
}

/// Whether two slices hold the same bytes.
pub fn same_bytes(a: &[u8], b: &[u8]) -> (r: bool)
    ensures
        r == (a@ == b@),
{
    let n: usize = a.len();
    if n != b.len() {
        return false;
    }
    let mut i: usize = 0;
    while i < n
        invariant
            n == a.len(),
            n == b.len(),
            i <= n,
            forall|j: int| 0 <= j < i ==> a@[j] == b@[j],
        decreases n - i,
    {
        if a[i] != b[i] {
            return false;
        }
        i += 1;
    }
    assert(a@ =~= b@);
    true
}

/// The position of the first field named `key`.
pub fn position<'a>(fields: &Vec<Field<'a>>, key: &[u8]) -> (r: Option<usize>)
    ensures
        index_of(fields_view(fields@), key@) == match r {
            Some(i) => Some(i as int),
            None => None,
        },
        r matches Some(i) ==> i < fields@.len(),
{
    let n: usize = fields.len();
    let mut i: usize = 0;
    proof {
        lemma_index_of(fields_view(fields@), key@);
    }
    while i < n
        invariant
            n == fields@.len(),
            i <= n,
            forall|j: int| 0 <= j < i ==> fields_view(fields@)[j].0 != key@,
        decreases n - i,
    {
        if same_bytes(fields[i].0.as_bytes(), key) {
            proof {
                lemma_index_of(fields_view(fields@), key@);
                assert(fields_view(fields@)[i as int].0 == key@);
            }
            return Some(i);
        }
        i += 1;
    }
    proof {
        lemma_index_of(fields_view(fields@), key@);
    }
    None
}

/// Gives `key` the value `value`: in place where a field of that name is
/// there, at the end where none is.
pub fn insert<'a>(fields: &mut Vec<Field<'a>>, key: Data<'a, HeaderFieldKey>, value: &'a [u8])
    ensures
        fields_view(final(fields)@) == insert_field(fields_view(old(fields)@), key@, value@),
{
    match position(fields, key.as_bytes()) {
        Some(i) => {
            fields.set(i, (key, value));
            assert(fields_view(fields@) =~= fields_view(old(fields)@).update(
                i as int,
                (key@, value@),
            ));
        },
        None => {
            fields.push((key, value));
            assert(fields_view(fields@) =~= fields_view(old(fields)@).push((key@, value@)));
        },
    }
}

/// Appends `bytes` to `sink`.
pub fn append(sink: &mut Vec<u8>, bytes: &[u8])
    ensures
        final(sink)@ == old(sink)@ + bytes@,
{
    sink.extend_from_slice(bytes);
    assert(sink@ =~= old(sink)@ + bytes@);
}

/// A parsed header: the start line's three tokens, uninterpreted, and the
/// fields. Every slice in it borrows from the buffer that was parsed.
#[derive(Debug)]
pub struct Header<'a> {
    header_line: (&'a [u8], &'a [u8], &'a [u8]),
    header_fields: Vec<Field<'a>>,
}

impl<'a> View for Header<'a> {
    type V = HeaderView;

    closed spec fn view(&self) -> HeaderView {
        HeaderView {
            line: (self.header_line.0@, self.header_line.1@, self.header_line.2@),
            fields: fields_view(self.header_fields@),
        }
    }
}

/// What a lookup of `key` gives: nothing where no field has that name, else
/// the field's value validated as ASCII text.
pub open spec fn field_spec(fields: Seq<FieldView>, key: Seq<u8>) -> Option<
    Result<Seq<u8>, HttpError>,
> {
    match lookup(fields, key) {
        Some(value) => Some(validate_spec::<Ascii>(value)),
        None => None,
    }
}

/// The contents of a lookup's result.
pub open spec fn field_view<'a>(r: Option<Result<Data<'a, Ascii>, HttpError>>) -> Option<
    Result<Seq<u8>, HttpError>,
> {
    match r {
        Some(value) => Some(typed_view(value)),
        None => None,
    }
}

/// The contents of a parse result.
pub open spec fn parsed_view<'a>(r: Result<(Header<'a>, &'a [u8]), HttpError>) -> Result<
    (HeaderView, Seq<u8>),
    HttpError,
> {
    match r {
        Ok((header, body)) => Ok((header@, body@)),
        Err(e) => Err(e),
    }
}

impl<'a> Header<'a> {
    #[verifier::type_invariant]
    spec fn in_order(self) -> bool {
        well_formed(self@)
    }

    /// Parses the header block at the start of `bytes`. Returns the header and
    /// the bytes behind the terminator.
    #[verifier::loop_isolation(false)]
    pub fn parse(bytes: &'a [u8]) -> (r: Result<(Header<'a>, &'a [u8]), HttpError>)
        ensures
            parsed_view(r) == parse_spec(bytes@),
    {
        let space: [u8; 1] = [0x20];
        let colon: [u8; 1] = [0x3a];
        let newline: [u8; 2] = [0x0d, 0x0a];
        let end: [u8; 4] = [0x0d, 0x0a, 0x0d, 0x0a];
        assert(space@ =~= self::space());
        assert(colon@ =~= self::colon());
        assert(newline@ =~= self::newline());
        assert(end@ =~= terminator());

        // Split data into header and body
        proof {
            lemma_split_two(bytes@, terminator());
            lemma_first_match(bytes@, terminator());
        }
        let end_pat: &[u8] = end.as_slice();
        assert(end_pat@ == terminator());
        let halves = split_n(bytes, end_pat, 2);
        assert(views(halves@) == split_n_spec(bytes@, terminator(), 2));
        let header_body = match collect_min(halves, 2) {
            Some(pieces) => pieces,
            None => {
                return Err(HttpError::TruncatedData);
            },
        };
        let block: &'a [u8] = header_body[0];
        let body: &'a [u8] = header_body[1];
        assert(block@ == views(header_body@)[0]);
        assert(body@ == views(header_body@)[1]);
        let lines = split(block, newline.as_slice());
        proof {
            lemma_split_nonempty(block@, self::newline());
        }
        let ghost all = views(lines@);
        assert(all == split_spec(block@, self::newline()));

        // Parse status line
        let first: &'a [u8] = lines[0];
        assert(first@ == all[0]);
        let tokens = match collect_exact(split(trim(first), space.as_slice()), 3) {
            Some(pieces) => pieces,
            None => {
                return Err(HttpError::ProtocolViolation);
            },
        };
        let header_line: (&'a [u8], &'a [u8], &'a [u8]) = (tokens[0], tokens[1], tokens[2]);
        assert(header_line.0@ == views(tokens@)[0]);
        assert(header_line.1@ == views(tokens@)[1]);
        assert(header_line.2@ == views(tokens@)[2]);
        assert(parse_start_line(all[0]) == Ok::<_, HttpError>(
            (header_line.0@, header_line.1@, header_line.2@),
        ));

        // Parse header fields
        let ghost rest = all.subrange(1, all.len() as int);
        let mut header_fields: Vec<Field<'a>> = Vec::new();
        let mut i: usize = 1;
        assert(rest.subrange(0, 0) =~= Seq::<Seq<u8>>::empty());
        assert(fields_view(header_fields@) =~= Seq::<FieldView>::empty());
        while i < lines.len()
            invariant
                1 <= i <= lines@.len(),
                all == views(lines@),
                rest == all.subrange(1, all.len() as int),
                colon@ == self::colon(),
                parse_fields(rest.subrange(0, i - 1)) == Ok::<_, HttpError>(
                    fields_view(header_fields@),
                ),
            decreases lines@.len() - i,
        {
            let line: &'a [u8] = lines[i];
            assert(line@ == all[i as int]);
            proof {
                lemma_split_two(line@, self::colon());
                lemma_first_match(line@, self::colon());
                assert(rest.subrange(0, i as int).drop_last() =~= rest.subrange(0, i - 1));
                assert(rest.subrange(0, i as int).last() == line@);
            }
            let ghost cur = rest.subrange(0, i as int);
            let colon_pat: &[u8] = colon.as_slice();
            assert(colon_pat@ == self::colon());
            let parts = split_n(line, colon_pat, 2);
            assert(views(parts@) == split_n_spec(line@, self::colon(), 2));
            let key_value = match collect_min(parts, 2) {
                Some(pieces) => pieces,
                None => {
                    proof {
                        assert(views(parts@).len() < 2);
                        assert(parse_fields(cur) is Err);
                        lemma_fields_error_persists(rest, i as int);
                    }
                    return Err(HttpError::ProtocolViolation);
                },
            };
            let name: &'a [u8] = key_value[0];
            let raw: &'a [u8] = key_value[1];
            assert(name@ == views(key_value@)[0]);
            assert(raw@ == views(key_value@)[1]);
            let key = match Data::<HeaderFieldKey>::validate(name) {
                Ok(key) => key,
                Err(e) => {
                    proof {
                        lemma_fields_error_persists(rest, i as int);
                    }
                    return Err(e);
                },
            };
            insert(&mut header_fields, key, trim(raw));
            i += 1;
        }
        assert(rest.subrange(0, i - 1) =~= rest);
        proof {
            let ghost header = HeaderView {
                line: (header_line.0@, header_line.1@, header_line.2@),
                fields: fields_view(header_fields@),
            };
            assert(parse_spec(bytes@) == Ok::<_, HttpError>((header, body@)));
            lemma_parsed_is_well_formed(bytes@);
        }
        Ok((Header { header_line, header_fields }, body))
    }

    /// The start line's three tokens, as they stood in the buffer.
    pub fn line(&self) -> (r: (&'a [u8], &'a [u8], &'a [u8]))
        ensures
            (r.0@, r.1@, r.2@) == self@.line,
            well_formed(self@),
    {
        proof {
            use_type_invariant(self);
        }
        self.header_line
    }

    /// The fields, in the order in which their names first occurred.
    pub fn fields(&self) -> (r: &Vec<Field<'a>>)
        ensures
            fields_view(r@) == self@.fields,
            well_formed(self@),
    {
        proof {
            use_type_invariant(self);
        }
        &self.header_fields
    }

    /// The value of the field named `key`, validated as ASCII text. `None`
    /// where no field has that name.
    pub fn field(&self, key: Data<'_, HeaderFieldKey>) -> (r: Option<
        Result<Data<'a, Ascii>, HttpError>,
    >)
        ensures
            field_view(r) == field_spec(self@.fields, key@),
    {
        match position(&self.header_fields, key.as_bytes()) {
            Some(i) => Some(Data::validate(self.header_fields[i].1)),
            None => None,
        }
    }

    /// Writes the header's bytes behind what `sink` holds. Returns the number
    /// of bytes written.
    pub fn serialize(&self, sink: &mut Vec<u8>) -> (written: usize)
        ensures
            final(sink)@ == old(sink)@ + serialize_spec(self@),
            written == serialize_spec(self@).len(),
            well_formed(self@),
    {
        proof {
            use_type_invariant(self);
        }
        let space: [u8; 1] = [0x20];
        let separator: [u8; 2] = [0x3a, 0x20];
        let newline: [u8; 2] = [0x0d, 0x0a];
        assert(space@ =~= self::space());
        assert(separator@ =~= self::separator());
        assert(newline@ =~= self::newline());
        let before: usize = sink.len();

        // Write header line
        append(sink, self.header_line.0);
        append(sink, space.as_slice());
        append(sink, self.header_line.1);
        append(sink, space.as_slice());
        append(sink, self.header_line.2);
        append(sink, newline.as_slice());

        // Write header fields
        let ghost start = sink@;
        let n: usize = self.header_fields.len();
        let mut i: usize = 0;
        assert(fields_view(self.header_fields@).subrange(0, 0) =~= Seq::<FieldView>::empty());
        assert(start + Seq::<u8>::empty() =~= start);
        while i < n
            invariant
                n == self.header_fields@.len(),
                i <= n,
                separator@ == self::separator(),
                newline@ == self::newline(),
                sink@ == start + serialize_fields(
                    fields_view(self.header_fields@).subrange(0, i as int),
                ),
            decreases n - i,
        {
            let ghost done = fields_view(self.header_fields@).subrange(0, i as int);
            let ghost next = fields_view(self.header_fields@).subrange(0, i + 1);
            assert(next.drop_last() =~= done);
            assert(next.last() == (self.header_fields@[i as int].0@, self.header_fields@[i as int].1@));
            append(sink, self.header_fields[i].0.as_bytes());
            append(sink, separator.as_slice());
            append(sink, self.header_fields[i].1);
            append(sink, newline.as_slice());
            assert(sink@ =~= start + serialize_fields(next));
            i += 1;
        }
        assert(fields_view(self.header_fields@).subrange(0, n as int) =~= fields_view(
            self.header_fields@,
        ));

        // Write trailing newline
        append(sink, newline.as_slice());
        assert(sink@ =~= old(sink)@ + serialize_spec(self@));
        sink.len() - before
    }
}

} // verus!
