//! What holds of every input: when a parse fails and how, what a repeated
//! field name does, that validating a typed value again changes nothing, and
//! that every parsed piece is a part of the buffer.
use crate::data::{valid, validate_spec, Encoding, HeaderFieldKey};
use crate::error::HttpError;
use crate::header::{
    colon, index_of, insert_field, lemma_fields_error_kind, lemma_fields_error_persists,
    lemma_index_of, lookup, newline, parse_field_line, parse_fields, parse_spec, space,
    terminator, FieldView, HeaderView,
};
use crate::scan::{
    first_match, free_of, lemma_first_match, lemma_first_match_unique, matches_at, split_spec,
    trim_spec,
};
use crate::scan_lemmas::{lemma_match_bytes, lemma_trim};
use vstd::prelude::*;

verus! {

/// Truncation: a parse fails with `TruncatedData` exactly where the buffer
/// holds no terminator, whatever else it holds.
pub proof fn lemma_truncated_without_terminator(bytes: Seq<u8>)
    ensures
        parse_spec(bytes) == Err::<(HeaderView, Seq<u8>), _>(HttpError::TruncatedData) <==> free_of(
            bytes,
            terminator(),
        ),
{
    lemma_first_match(bytes, terminator());
    if let Some(end) = first_match(bytes, terminator()) {
        let lines = split_spec(bytes.subrange(0, end), newline());
        lemma_fields_error_kind(lines.subrange(1, lines.len() as int));
        assert(matches_at(bytes, terminator(), end));
    }
}

/// The first line of the header block of `bytes`, trimmed and split at every
/// space.
pub open spec fn start_tokens(bytes: Seq<u8>) -> Seq<Seq<u8>> {
    let end = first_match(bytes, terminator()).unwrap();
    let lines = split_spec(bytes.subrange(0, end), newline());
    split_spec(trim_spec(lines.first()), space())
}

/// The lines of the header block of `bytes` behind the first.
pub open spec fn field_lines_of(bytes: Seq<u8>) -> Seq<Seq<u8>> {
    let end = first_match(bytes, terminator()).unwrap();
    let lines = split_spec(bytes.subrange(0, end), newline());
    lines.subrange(1, lines.len() as int)
}

/// Start-line arity: a header block whose first line has any number of
/// tokens but three is a protocol violation; with three tokens and no field
/// lines the parse succeeds, and the tokens are the start line.
pub proof fn lemma_start_line_arity(bytes: Seq<u8>)
    requires
        first_match(bytes, terminator()) is Some,
    ensures
        start_tokens(bytes).len() != 3 ==> parse_spec(bytes) == Err::<(HeaderView, Seq<u8>), _>(
            HttpError::ProtocolViolation,
        ),
        start_tokens(bytes).len() == 3 && field_lines_of(bytes).len() == 0 ==> {
            &&& parse_spec(bytes) is Ok
            &&& parse_spec(bytes).unwrap().0.line == (
                start_tokens(bytes)[0],
                start_tokens(bytes)[1],
                start_tokens(bytes)[2],
            )
            &&& parse_spec(bytes).unwrap().0.fields.len() == 0
        },
{
}

/// Field colon requirement: a field line without a colon is a protocol
/// violation, wherever among the field lines it stands.
pub proof fn lemma_field_needs_colon(bytes: Seq<u8>, k: int)
    requires
        first_match(bytes, terminator()) is Some,
        0 <= k < field_lines_of(bytes).len(),
        free_of(field_lines_of(bytes)[k], colon()),
    ensures
        parse_spec(bytes) == Err::<(HeaderView, Seq<u8>), _>(HttpError::ProtocolViolation),
{
    let lines = field_lines_of(bytes);
    let upto = lines.subrange(0, k + 1);
    lemma_first_match(lines[k], colon());
    assert(upto.last() == lines[k]);
    assert(parse_field_line(upto.last()) is Err);
    assert(parse_fields(upto) is Err);
    lemma_fields_error_persists(lines, k + 1);
}

/// A field line that ends with its colon has the empty value.
pub proof fn lemma_empty_value(key: Seq<u8>)
    requires
        valid::<HeaderFieldKey>(key),
    ensures
        parse_field_line(key + colon()) == Ok::<FieldView, HttpError>((key, Seq::<u8>::empty())),
{
    let line = key + colon();
    let n = key.len() as int;
    assert(line.subrange(n, n + 1) =~= colon());
    assert forall|j: int| j < n implies !matches_at(line, colon(), j) by {
        if matches_at(line, colon(), j) {
            lemma_match_bytes(line, colon(), j);
            assert(line[j + 0] == colon()[0]);
            assert(line[j] == key[j]);
        }
    }
    lemma_first_match_unique(line, colon(), n);
    assert(line.subrange(0, n) =~= key);
    assert(line.subrange(n + 1, line.len() as int) =~= Seq::<u8>::empty());
}

/// Last wins: after a name was given a value, a lookup of that name yields
/// that value, and a lookup of any other name yields what it did before.
pub proof fn lemma_last_wins(fields: Seq<FieldView>, key: Seq<u8>, value: Seq<u8>, other: Seq<u8>)
    ensures
        lookup(insert_field(fields, key, value), key) == Some(value),
        other != key ==> lookup(insert_field(fields, key, value), other) == lookup(fields, other),
{
    let after = insert_field(fields, key, value);
    lemma_index_of(fields, key);
    lemma_index_of(fields, other);
    lemma_index_of(after, key);
    lemma_index_of(after, other);
    match index_of(fields, key) {
        Some(at) => {
            assert forall|j: int| 0 <= j < after.len() && j != at implies after[j]
                == fields[j] by {}
            assert(after[at] == (key, value));
        },
        None => {
            assert forall|j: int| 0 <= j < fields.len() implies after[j] == fields[j] by {}
            assert(after[fields.len() as int] == (key, value));
        },
    }
    if other != key {
        match index_of(fields, other) {
            Some(i) => {
                assert(after[i] == fields[i]);
                assert(index_of(after, other) == Some(i)) by {
                    let j = index_of(after, other).unwrap();
                    if j < i {
                        assert(after[j].0 == other);
                        assert(j < fields.len());
                        assert(after[j].0 == fields[j].0 || after[j].0 == key);
                    }
                }
            },
            None => {
                if let Some(j) = index_of(after, other) {
                    assert(after[j].0 == other);
                    if j < fields.len() {
                        assert(after[j].0 == fields[j].0 || after[j].0 == key);
                    }
                }
            },
        }
    }
}

/// Of two field lines with one name, the second gives the value.
pub proof fn lemma_second_line_wins(first: Seq<u8>, second: Seq<u8>)
    requires
        parse_field_line(first) is Ok,
        parse_field_line(second) is Ok,
        parse_field_line(first).unwrap().0 == parse_field_line(second).unwrap().0,
    ensures
        parse_fields(seq![first, second]) == Ok::<_, HttpError>(
            seq![parse_field_line(second).unwrap()],
        ),
{
    let lines = seq![first, second];
    let (key, old_value) = parse_field_line(first).unwrap();
    let (_, value) = parse_field_line(second).unwrap();
    assert(lines.drop_last() =~= seq![first]);
    assert(seq![first].drop_last() =~= Seq::<Seq<u8>>::empty());
    let none = Seq::<FieldView>::empty();
    assert(parse_fields(Seq::<Seq<u8>>::empty()) == Ok::<_, HttpError>(none));
    assert(index_of(none, key) is None);
    assert(parse_fields(seq![first]) == Ok::<_, HttpError>(none.push((key, old_value))));
    let one = none.push((key, old_value));
    lemma_index_of(one, key);
    assert(one[0].0 == key);
    assert(index_of(one, key) == Some(0int));
    assert(one.update(0, (key, value)) =~= seq![(key, value)]);
}

/// Idempotent validation: what was validated once is valid again, unchanged.
pub proof fn lemma_validate_idempotent<E: Encoding>(bytes: Seq<u8>)
    ensures
        validate_spec::<E>(bytes) matches Ok(typed) ==> validate_spec::<E>(typed) == Ok::<
            _,
            HttpError,
        >(typed),
{
}

/// `piece` holds the bytes of a part of `whole`.
pub open spec fn part_of(piece: Seq<u8>, whole: Seq<u8>) -> bool {
    exists|from: int, to: int| 0 <= from <= to <= whole.len() && piece == whole.subrange(from, to)
}

/// A part of a part is a part.
pub proof fn lemma_part_of_part(piece: Seq<u8>, middle: Seq<u8>, whole: Seq<u8>)
    requires
        part_of(piece, middle),
        part_of(middle, whole),
    ensures
        part_of(piece, whole),
{
    let (a, b) = choose|a: int, b: int|
        0 <= a <= b <= middle.len() && piece == middle.subrange(a, b);
    let (c, d) = choose|c: int, d: int| 0 <= c <= d <= whole.len() && middle == whole.subrange(c, d);
    assert(middle.subrange(a, b) =~= whole.subrange(c + a, c + b));
}

/// Every piece of a split is a part of what was split.
pub proof fn lemma_split_pieces_are_parts(s: Seq<u8>, pat: Seq<u8>)
    ensures
        forall|k: int|
            0 <= k < split_spec(s, pat).len() ==> part_of(#[trigger] split_spec(s, pat)[k], s),
    decreases s.len(),
{
    lemma_first_match(s, pat);
    match first_match(s, pat) {
        None => {
            assert(s =~= s.subrange(0, s.len() as int));
        },
        Some(i) => {
            let tail = s.subrange(i + pat.len(), s.len() as int);
            lemma_split_pieces_are_parts(tail, pat);
            assert(part_of(tail, s));
            assert forall|k: int| 0 <= k < split_spec(s, pat).len() implies part_of(
                #[trigger] split_spec(s, pat)[k],
                s,
            ) by {
                if k > 0 {
                    assert(split_spec(s, pat)[k] == split_spec(tail, pat)[k - 1]);
                    lemma_part_of_part(split_spec(tail, pat)[k - 1], tail, s);
                }
            }
        },
    }
}

/// The name and the value that a field line yields are parts of the line.
pub proof fn lemma_field_is_part(line: Seq<u8>)
    requires
        parse_field_line(line) is Ok,
    ensures
        part_of(parse_field_line(line).unwrap().0, line),
        part_of(parse_field_line(line).unwrap().1, line),
{
    lemma_first_match(line, colon());
    let at = first_match(line, colon()).unwrap();
    let raw = line.subrange(at + 1, line.len() as int);
    lemma_trim(raw);
    assert(part_of(raw, line));
    lemma_part_of_part(trim_spec(raw), raw, line);
}

/// The names and values that field lines yield are parts of the buffer that
/// the lines are parts of.
pub proof fn lemma_fields_are_parts(lines: Seq<Seq<u8>>, whole: Seq<u8>)
    requires
        forall|k: int| 0 <= k < lines.len() ==> part_of(#[trigger] lines[k], whole),
        parse_fields(lines) is Ok,
    ensures
        forall|i: int|
            0 <= i < parse_fields(lines).unwrap().len() ==> {
                &&& part_of((#[trigger] parse_fields(lines).unwrap()[i]).0, whole)
                &&& part_of(parse_fields(lines).unwrap()[i].1, whole)
            },
    decreases lines.len(),
{
    if lines.len() > 0 {
        let front = lines.drop_last();
        let last = lines.last();
        assert forall|k: int| 0 <= k < front.len() implies part_of(#[trigger] front[k], whole) by {
            assert(front[k] == lines[k]);
        }
        lemma_fields_are_parts(front, whole);
        let before = parse_fields(front).unwrap();
        let (key, value) = parse_field_line(last).unwrap();
        assert(part_of(lines[lines.len() - 1], whole));
        lemma_field_is_part(last);
        lemma_part_of_part(key, last, whole);
        lemma_part_of_part(value, last, whole);
        lemma_index_of(before, key);
        let after = parse_fields(lines).unwrap();
        assert(after == insert_field(before, key, value));
        assert forall|i: int| 0 <= i < after.len() implies {
            &&& part_of((#[trigger] after[i]).0, whole)
            &&& part_of(after[i].1, whole)
        } by {
            if i < before.len() && after[i] != (key, value) {
                assert(after[i] == before[i]);
            }
        }
    }
}

/// Borrowed pieces: the tokens, the field names, the field values and the
/// body that a parse yields each hold the bytes of a part of the buffer that
/// was parsed.
pub proof fn lemma_parsed_pieces_are_parts(bytes: Seq<u8>)
    requires
        parse_spec(bytes) is Ok,
    ensures
        ({
            let (header, body) = parse_spec(bytes).unwrap();
            &&& part_of(header.line.0, bytes)
            &&& part_of(header.line.1, bytes)
            &&& part_of(header.line.2, bytes)
            &&& part_of(body, bytes)
            &&& forall|i: int|
                0 <= i < header.fields.len() ==> {
                    &&& part_of((#[trigger] header.fields[i]).0, bytes)
                    &&& part_of(header.fields[i].1, bytes)
                }
        }),
{
    lemma_first_match(bytes, terminator());
    let end = first_match(bytes, terminator()).unwrap();
    assert(matches_at(bytes, terminator(), end));
    let block = bytes.subrange(0, end);
    assert(part_of(block, bytes));
    let lines = split_spec(block, newline());
    lemma_split_pieces_are_parts(block, newline());
    let first = lines.first();
    assert(part_of(lines[0], block));
    lemma_part_of_part(first, block, bytes);
    lemma_trim(first);
    let trimmed = trim_spec(first);
    lemma_part_of_part(trimmed, first, bytes);
    let tokens = split_spec(trimmed, space());
    lemma_split_pieces_are_parts(trimmed, space());
    assert(part_of(tokens[0], trimmed) && part_of(tokens[1], trimmed) && part_of(
        tokens[2],
        trimmed,
    ));
    lemma_part_of_part(tokens[0], trimmed, bytes);
    lemma_part_of_part(tokens[1], trimmed, bytes);
    lemma_part_of_part(tokens[2], trimmed, bytes);
    let rest = lines.subrange(1, lines.len() as int);
    assert forall|k: int| 0 <= k < rest.len() implies part_of(#[trigger] rest[k], bytes) by {
        assert(rest[k] == lines[k + 1]);
        assert(part_of(lines[k + 1], block));
        lemma_part_of_part(rest[k], block, bytes);
    }
    lemma_fields_are_parts(rest, bytes);
}

} // verus!
