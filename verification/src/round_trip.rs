//! Parsing and serializing together: every header that a parse yields is well
//! formed, and a well-formed header, written out and parsed again, comes back
//! as it was.
use crate::data::{is_token_byte, valid, HeaderFieldKey};
use crate::error::HttpError;
use crate::header::{
    colon, index_of, insert_field, lemma_index_of, newline, parse_field_line, parse_fields,
    parse_spec, parse_start_line, separator, serialize_fields, serialize_spec, space, terminator,
    FieldView, HeaderView,
};
use crate::scan::{
    first_match, free_of, is_trimmed, is_whitespace, lemma_first_match,
    lemma_first_match_unique, matches_at, split_spec, trim_spec,
};
use crate::scan_lemmas::{
    border_free, lemma_bytes_match, lemma_first_match_behind, lemma_free_part,
    lemma_match_bytes, lemma_match_within_part, lemma_split_concat, lemma_split_free,
    lemma_split_pieces_free, lemma_split_pieces_inherit, lemma_split_three, lemma_trim,
    lemma_trim_fixed, lemma_trim_inherits, lemma_trim_leading,
};
use vstd::prelude::*;

verus! {

/// A token that can stand in a start line: it holds no space and no line end.
pub open spec fn token_ok(token: Seq<u8>) -> bool {
    free_of(token, space()) && free_of(token, newline())
}

/// A field that can stand in a header: its name is a header field name, its
/// value has no whitespace at either end and holds no line end.
pub open spec fn field_ok(field: FieldView) -> bool {
    &&& valid::<HeaderFieldKey>(field.0)
    &&& is_trimmed(field.1)
    &&& free_of(field.1, newline())
}

/// No two fields have the same name.
pub open spec fn distinct_names(fields: Seq<FieldView>) -> bool {
    forall|i: int, j: int| 0 <= i < j < fields.len() ==> fields[i].0 != fields[j].0
}

/// Every field can stand in a header, and no name occurs twice.
pub open spec fn fields_ok(fields: Seq<FieldView>) -> bool {
    &&& forall|i: int| 0 <= i < fields.len() ==> field_ok(#[trigger] fields[i])
    &&& distinct_names(fields)
}

/// A header that serializing and parsing keep as it is: its tokens hold no
/// space and no line end, the first does not start and the last does not end
/// with whitespace, and its fields are in order.
pub open spec fn well_formed(header: HeaderView) -> bool {
    &&& token_ok(header.line.0)
    &&& token_ok(header.line.1)
    &&& token_ok(header.line.2)
    &&& header.line.0.len() > 0
    &&& !is_whitespace(header.line.0.first())
    &&& header.line.2.len() > 0
    &&& !is_whitespace(header.line.2.last())
    &&& fields_ok(header.fields)
}

/// Giving a name a value keeps the fields in order.
pub proof fn lemma_insert_keeps_order(fields: Seq<FieldView>, key: Seq<u8>, value: Seq<u8>)
    requires
        fields_ok(fields),
        field_ok((key, value)),
    ensures
        fields_ok(insert_field(fields, key, value)),
{
    lemma_index_of(fields, key);
    let after = insert_field(fields, key, value);
    match index_of(fields, key) {
        Some(at) => {
            assert forall|i: int| 0 <= i < after.len() implies field_ok(#[trigger] after[i]) by {
                if i != at {
                    assert(after[i] == fields[i]);
                }
            }
            assert forall|i: int, j: int| 0 <= i < j < after.len() implies after[i].0
                != after[j].0 by {
                assert(after[i].0 == fields[i].0);
                assert(after[j].0 == fields[j].0);
            }
        },
        None => {
            assert forall|i: int| 0 <= i < after.len() implies field_ok(#[trigger] after[i]) by {
                if i < fields.len() {
                    assert(after[i] == fields[i]);
                }
            }
            assert forall|i: int, j: int| 0 <= i < j < after.len() implies after[i].0
                != after[j].0 by {
                assert(after[i] == fields[i]);
                if j < fields.len() {
                    assert(after[j] == fields[j]);
                }
            }
        },
    }
}

/// The field that a line without a line end yields can stand in a header.
pub proof fn lemma_field_line_in_order(line: Seq<u8>)
    requires
        free_of(line, newline()),
        parse_field_line(line) is Ok,
    ensures
        field_ok(parse_field_line(line).unwrap()),
{
    lemma_first_match(line, colon());
    let at = first_match(line, colon()).unwrap();
    let raw = line.subrange(at + 1, line.len() as int);
    lemma_free_part(line, at + 1, line.len() as int, newline());
    lemma_trim(raw);
    lemma_trim_inherits(raw, newline());
}

/// The fields that lines without line ends yield are in order.
pub proof fn lemma_fields_in_order(lines: Seq<Seq<u8>>)
    requires
        forall|k: int| 0 <= k < lines.len() ==> free_of(#[trigger] lines[k], newline()),
        parse_fields(lines) is Ok,
    ensures
        fields_ok(parse_fields(lines).unwrap()),
    decreases lines.len(),
{
    if lines.len() > 0 {
        let front = lines.drop_last();
        assert forall|k: int| 0 <= k < front.len() implies free_of(
            #[trigger] front[k],
            newline(),
        ) by {
            assert(front[k] == lines[k]);
        }
        lemma_fields_in_order(front);
        assert(free_of(lines[lines.len() - 1], newline()));
        lemma_field_line_in_order(lines.last());
        let (key, value) = parse_field_line(lines.last()).unwrap();
        lemma_insert_keeps_order(parse_fields(front).unwrap(), key, value);
    }
}

/// The tokens of a start line hold no space and no line end, the first does
/// not start with whitespace and the last does not end with it.
pub proof fn lemma_start_line_in_order(line: Seq<u8>)
    requires
        free_of(line, newline()),
        parse_start_line(line) is Ok,
    ensures
        ({
            let tokens = parse_start_line(line).unwrap();
            &&& token_ok(tokens.0)
            &&& token_ok(tokens.1)
            &&& token_ok(tokens.2)
            &&& tokens.0.len() > 0
            &&& !is_whitespace(tokens.0.first())
            &&& tokens.2.len() > 0
            &&& !is_whitespace(tokens.2.last())
        }),
{
    let trimmed = trim_spec(line);
    let pieces = split_spec(trimmed, space());
    lemma_trim(line);
    lemma_trim_inherits(line, newline());
    lemma_split_pieces_free(trimmed, space());
    lemma_split_pieces_inherit(trimmed, space(), newline());
    lemma_split_three(trimmed, space());
    assert(free_of(pieces[0], space()) && free_of(pieces[1], space()) && free_of(
        pieces[2],
        space(),
    ));
    assert(free_of(pieces[0], newline()) && free_of(pieces[1], newline()) && free_of(
        pieces[2],
        newline(),
    ));
    let joined = pieces[0] + space() + pieces[1] + space() + pieces[2];
    assert(trimmed == joined);
    if pieces[0].len() == 0 {
        assert(joined[0] == 0x20u8);
    } else {
        assert(joined[0] == pieces[0][0]);
    }
    if pieces[2].len() == 0 {
        assert(joined[joined.len() - 1] == 0x20u8);
    } else {
        assert(joined[joined.len() - 1] == pieces[2][pieces[2].len() - 1]);
    }
}

/// Every header that a parse yields is well formed.
pub proof fn lemma_parsed_is_well_formed(bytes: Seq<u8>)
    requires
        parse_spec(bytes) is Ok,
    ensures
        well_formed(parse_spec(bytes).unwrap().0),
{
    lemma_first_match(bytes, terminator());
    let end = first_match(bytes, terminator()).unwrap();
    let block = bytes.subrange(0, end);
    let lines = split_spec(block, newline());
    lemma_split_pieces_free(block, newline());
    assert(free_of(lines[0], newline()));
    lemma_start_line_in_order(lines.first());
    let rest = lines.subrange(1, lines.len() as int);
    assert forall|k: int| 0 <= k < rest.len() implies free_of(#[trigger] rest[k], newline()) by {
        assert(rest[k] == lines[k + 1]);
    }
    lemma_fields_in_order(rest);
}

/// The bytes of a start line: its tokens with a space between them.
pub open spec fn start_line(line: (Seq<u8>, Seq<u8>, Seq<u8>)) -> Seq<u8> {
    line.0 + space() + line.1 + space() + line.2
}

/// The bytes of a field line: name, colon, space, value.
pub open spec fn field_line(field: FieldView) -> Seq<u8> {
    field.0 + separator() + field.1
}

/// The field lines of a list of fields.
pub open spec fn field_lines(fields: Seq<FieldView>) -> Seq<Seq<u8>> {
    Seq::new(fields.len(), |i: int| field_line(fields[i]))
}

/// The lines of a header: the start line, then the field lines.
pub open spec fn header_lines(header: HeaderView) -> Seq<Seq<u8>> {
    seq![start_line(header.line)] + field_lines(header.fields)
}

/// The lines with a line end between each two of them.
pub open spec fn join_lines(lines: Seq<Seq<u8>>) -> Seq<u8>
    decreases lines.len(),
{
    if lines.len() == 0 {
        Seq::empty()
    } else if lines.len() == 1 {
        lines[0]
    } else {
        join_lines(lines.drop_last()) + newline() + lines.last()
    }
}

/// A line end cannot overlap a line end, nor a space a space, nor a colon a
/// colon.
pub proof fn lemma_border_free()
    ensures
        border_free(newline()),
        border_free(space()),
        border_free(colon()),
{
    assert forall|k: int| 0 < k < newline().len() implies newline().subrange(
        k,
        newline().len() as int,
    ) != newline().subrange(0, newline().len() - k) by {
        assert(newline().subrange(1, 2)[0] == 0x0au8);
        assert(newline().subrange(0, 1)[0] == 0x0du8);
    }
}

/// The serialized fields behind a first line are the lines joined, with a
/// line end behind them.
pub proof fn lemma_fields_join(first: Seq<u8>, fields: Seq<FieldView>)
    ensures
        first + newline() + serialize_fields(fields) == join_lines(
            seq![first] + field_lines(fields),
        ) + newline(),
    decreases fields.len(),
{
    let lines = seq![first] + field_lines(fields);
    if fields.len() == 0 {
        assert(lines =~= seq![first]);
        assert(first + newline() + serialize_fields(fields) =~= first + newline());
    } else {
        let front = fields.drop_last();
        let last = fields.last();
        lemma_fields_join(first, front);
        assert(lines.drop_last() =~= seq![first] + field_lines(front));
        assert(lines.last() == field_line(last));
        assert(first + newline() + serialize_fields(fields) =~= (first + newline()
            + serialize_fields(front)) + last.0 + separator() + last.1 + newline());
        assert(join_lines(lines) + newline() =~= (join_lines(lines.drop_last()) + newline())
            + last.0 + separator() + last.1 + newline());
    }
}

/// A serialized header is its lines joined, with two line ends behind them.
pub proof fn lemma_serialize_is_join(header: HeaderView)
    ensures
        serialize_spec(header) == join_lines(header_lines(header)) + newline() + newline(),
{
    lemma_fields_join(start_line(header.line), header.fields);
    assert(serialize_spec(header) =~= (start_line(header.line) + newline() + serialize_fields(
        header.fields,
    )) + newline());
}

/// Lines without a line end in them, joined and split again, are the same
/// lines.
pub proof fn lemma_split_join(lines: Seq<Seq<u8>>)
    requires
        lines.len() >= 1,
        forall|k: int| 0 <= k < lines.len() ==> free_of(#[trigger] lines[k], newline()),
    ensures
        split_spec(join_lines(lines), newline()) == lines,
    decreases lines.len(),
{
    assert(free_of(lines[lines.len() - 1], newline()));
    lemma_split_free(lines.last(), newline());
    if lines.len() == 1 {
        assert(lines =~= seq![lines[0]]);
    } else {
        let front = lines.drop_last();
        assert forall|k: int| 0 <= k < front.len() implies free_of(
            #[trigger] front[k],
            newline(),
        ) by {
            assert(front[k] == lines[k]);
        }
        lemma_split_join(front);
        lemma_border_free();
        lemma_split_concat(join_lines(front), lines.last(), newline());
        assert(front + seq![lines.last()] =~= lines);
    }
}

/// No terminator ends within the joined lines and the line end behind them,
/// where no line is empty or holds a line end.
pub proof fn lemma_no_early_terminator(lines: Seq<Seq<u8>>, tail: Seq<u8>)
    requires
        lines.len() >= 1,
        forall|k: int|
            0 <= k < lines.len() ==> free_of(#[trigger] lines[k], newline()) && lines[k].len() > 0,
    ensures
        forall|p: int|
            p + 4 <= join_lines(lines).len() + 2 ==> !matches_at(
                join_lines(lines) + newline() + tail,
                terminator(),
                p,
            ),
    decreases lines.len(),
{
    let joined = join_lines(lines);
    let whole = joined + newline() + tail;
    let last = lines.last();
    assert(free_of(lines[lines.len() - 1], newline()) && lines[lines.len() - 1].len() > 0);
    if lines.len() == 1 {
        assert forall|p: int| p + 4 <= joined.len() + 2 implies !matches_at(
            whole,
            terminator(),
            p,
        ) by {
            if matches_at(whole, terminator(), p) {
                lemma_match_bytes(whole, terminator(), p);
                assert(whole[p + 0] == terminator()[0] && whole[p + 1] == terminator()[1]);
                assert(whole[p] == last[p] && whole[p + 1] == last[p + 1]);
                assert forall|k: int| 0 <= k < newline().len() implies last[p + k]
                    == newline()[k] by {}
                lemma_bytes_match(last, newline(), p);
            }
        }
    } else {
        let front = lines.drop_last();
        let before = join_lines(front);
        let n = before.len() as int;
        let behind = last + newline() + tail;
        assert forall|k: int| 0 <= k < front.len() implies free_of(
            #[trigger] front[k],
            newline(),
        ) && front[k].len() > 0 by {
            assert(front[k] == lines[k]);
        }
        lemma_no_early_terminator(front, behind);
        assert(whole =~= before + newline() + behind);
        assert(whole[n] == 0x0du8 && whole[n + 1] == 0x0au8);
        assert(whole[n + 2 + last.len()] == 0x0du8);
        assert forall|t: int| 0 <= t < last.len() implies whole[n + 2 + t] == last[t] by {}
        assert forall|p: int| p + 4 <= joined.len() + 2 implies !matches_at(
            whole,
            terminator(),
            p,
        ) by {
            if matches_at(whole, terminator(), p) {
                lemma_match_bytes(whole, terminator(), p);
                assert(whole[p + 0] == 0x0du8 && whole[p + 1] == 0x0au8 && whole[p + 2] == 0x0du8
                    && whole[p + 3] == 0x0au8);
                if p + 4 <= n + 2 {
                } else if p == n - 1 {
                } else if p == n {
                    assert(whole[n + 2 + 0] == last[0]);
                    if last.len() >= 2 {
                        assert(whole[n + 2 + 1] == last[1]);
                        assert forall|k: int| 0 <= k < newline().len() implies last[0 + k]
                            == newline()[k] by {}
                        lemma_bytes_match(last, newline(), 0);
                    }
                } else if p == n + 1 {
                } else {
                    let t = p - n - 2;
                    assert(whole[n + 2 + t] == last[t]);
                    assert(whole[n + 2 + (t + 1)] == last[t + 1]);
                    assert forall|k: int| 0 <= k < newline().len() implies last[t + k]
                        == newline()[k] by {}
                    lemma_bytes_match(last, newline(), t);
                }
            }
        }
    }
}

/// Behind lines of which none is empty or holds a line end, the empty line is
/// where the first terminator stands.
pub proof fn lemma_terminator_position(lines: Seq<Seq<u8>>, body: Seq<u8>)
    requires
        lines.len() >= 1,
        forall|k: int|
            0 <= k < lines.len() ==> free_of(#[trigger] lines[k], newline()) && lines[k].len() > 0,
    ensures
        first_match(join_lines(lines) + newline() + newline() + body, terminator()) == Some(
            join_lines(lines).len() as int,
        ),
{
    let joined = join_lines(lines);
    let n = joined.len() as int;
    let whole = joined + newline() + newline() + body;
    lemma_no_early_terminator(lines, newline() + body);
    assert(whole =~= joined + newline() + (newline() + body));
    assert(whole.subrange(n, n + 4) =~= terminator());
    assert forall|p: int| p < n implies !matches_at(whole, terminator(), p) by {
        if matches_at(whole, terminator(), p) {
            lemma_match_bytes(whole, terminator(), p);
            assert(whole[p + 1] == 0x0au8);
            assert(whole[n] == 0x0du8);
        }
    }
    lemma_first_match_unique(whole, terminator(), n);
}

/// A byte that the pattern does not hold, put between two buffers that are
/// free of the pattern, leaves the whole free of it.
pub proof fn lemma_free_around_byte(a: Seq<u8>, b: u8, c: Seq<u8>, pat: Seq<u8>)
    requires
        free_of(a, pat),
        free_of(c, pat),
        forall|k: int| 0 <= k < pat.len() ==> pat[k] != b,
    ensures
        free_of(a + seq![b] + c, pat),
{
    let s = a + seq![b] + c;
    let n = a.len() as int;
    let m = pat.len() as int;
    assert forall|p: int| !matches_at(s, pat, p) by {
        if matches_at(s, pat, p) {
            lemma_match_bytes(s, pat, p);
            if p + m <= n {
                assert(s.subrange(p, p + m) =~= a.subrange(p, p + m));
                assert(matches_at(a, pat, p));
            } else if p > n {
                assert(s.subrange(p, p + m) =~= c.subrange(p - n - 1, p - n - 1 + m));
                assert(matches_at(c, pat, p - n - 1));
            } else {
                assert(s[p + (n - p)] == pat[n - p]);
                assert(s[n] == b);
            }
        }
    }
}

/// A start line written from tokens in order parses to those tokens; it is
/// not empty and holds no line end.
pub proof fn lemma_start_line_parses(line: (Seq<u8>, Seq<u8>, Seq<u8>))
    requires
        token_ok(line.0),
        token_ok(line.1),
        token_ok(line.2),
        line.0.len() > 0,
        !is_whitespace(line.0.first()),
        line.2.len() > 0,
        !is_whitespace(line.2.last()),
    ensures
        parse_start_line(start_line(line)) == Ok::<_, HttpError>(line),
        free_of(start_line(line), newline()),
        start_line(line).len() > 0,
{
    let text = start_line(line);
    assert(space() =~= seq![0x20u8]);
    assert(text[0] == line.0[0]);
    assert(text[text.len() - 1] == line.2[line.2.len() - 1]);
    lemma_trim_fixed(text);
    lemma_border_free();
    lemma_split_free(line.0, space());
    lemma_split_free(line.1, space());
    lemma_split_free(line.2, space());
    lemma_split_concat(line.0, line.1, space());
    lemma_split_concat(line.0 + space() + line.1, line.2, space());
    assert(seq![line.0] + seq![line.1] + seq![line.2] =~= seq![line.0, line.1, line.2]);
    let front = line.0 + seq![0x20u8] + line.1;
    lemma_free_around_byte(line.0, 0x20u8, line.1, newline());
    lemma_free_around_byte(front, 0x20u8, line.2, newline());
}

/// A field line written from a field in order parses to that field; it is not
/// empty and holds no line end.
pub proof fn lemma_field_line_parses(field: FieldView)
    requires
        field_ok(field),
    ensures
        parse_field_line(field_line(field)) == Ok::<_, HttpError>(field),
        free_of(field_line(field), newline()),
        field_line(field).len() > 0,
{
    let (key, value) = field;
    let text = field_line(field);
    let n = key.len() as int;
    assert forall|k: int| 0 <= k < n implies text[k] == key[k] && is_token_byte(key[k]) by {}
    assert(text[n] == 0x3au8 && text[n + 1] == 0x20u8);
    assert forall|p: int| !matches_at(key, colon(), p) by {
        if matches_at(key, colon(), p) {
            lemma_match_bytes(key, colon(), p);
            assert(key[p + 0] == colon()[0]);
            assert(is_token_byte(key[p]));
        }
    }
    lemma_border_free();
    assert(text =~= key + colon() + (seq![0x20u8] + value));
    lemma_first_match_behind(key, seq![0x20u8] + value, colon());
    assert(text.subrange(0, n) =~= key);
    assert(text.subrange(n + 1, text.len() as int) =~= seq![0x20u8] + value);
    lemma_trim_leading(0x20u8, value);
    lemma_trim_fixed(value);
    assert forall|p: int| !matches_at(text, newline(), p) by {
        if matches_at(text, newline(), p) {
            lemma_match_bytes(text, newline(), p);
            assert(text[p + 0] == newline()[0]);
            if p < n {
                assert(is_token_byte(key[p]));
            } else if p >= n + 2 {
                assert(text.subrange(n + 2, text.len() as int) =~= value);
                lemma_match_within_part(text, n + 2, text.len() as int, newline(), p);
            }
        }
    }
}

/// Field lines written from fields in order parse to those fields.
pub proof fn lemma_fields_parse(fields: Seq<FieldView>)
    requires
        fields_ok(fields),
    ensures
        parse_fields(field_lines(fields)) == Ok::<_, HttpError>(fields),
    decreases fields.len(),
{
    let lines = field_lines(fields);
    if fields.len() == 0 {
        assert(fields =~= Seq::<FieldView>::empty());
    } else {
        let front = fields.drop_last();
        let last = fields.last();
        assert(lines.drop_last() =~= field_lines(front));
        assert(lines.last() == field_line(last));
        assert forall|i: int| 0 <= i < front.len() implies field_ok(#[trigger] front[i]) by {
            assert(front[i] == fields[i]);
        }
        assert(distinct_names(front)) by {
            assert forall|i: int, j: int| 0 <= i < j < front.len() implies front[i].0
                != front[j].0 by {
                assert(front[i] == fields[i] && front[j] == fields[j]);
            }
        }
        lemma_fields_parse(front);
        assert(field_ok(fields[fields.len() - 1]));
        lemma_field_line_parses(last);
        lemma_index_of(front, last.0);
        assert(index_of(front, last.0) is None) by {
            if let Some(i) = index_of(front, last.0) {
                assert(front[i] == fields[i]);
            }
        }
        assert(front.push((last.0, last.1)) =~= fields);
    }
}

/// A well-formed header, serialized and parsed again, is the same header, and
/// what stood behind it is the body: on such headers parsing undoes
/// serializing byte for byte.
pub proof fn lemma_parse_undoes_serialize(header: HeaderView, body: Seq<u8>)
    requires
        well_formed(header),
    ensures
        parse_spec(serialize_spec(header) + body) == Ok::<_, HttpError>((header, body)),
{
    let lines = header_lines(header);
    let joined = join_lines(lines);
    let n = joined.len() as int;
    let bytes = serialize_spec(header) + body;
    lemma_serialize_is_join(header);
    lemma_start_line_parses(header.line);
    assert forall|k: int| 0 <= k < lines.len() implies free_of(#[trigger] lines[k], newline())
        && lines[k].len() > 0 by {
        if k > 0 {
            assert(lines[k] == field_line(header.fields[k - 1]));
            assert(field_ok(header.fields[k - 1]));
            lemma_field_line_parses(header.fields[k - 1]);
        }
    }
    assert(bytes =~= joined + newline() + newline() + body);
    lemma_terminator_position(lines, body);
    assert(bytes.subrange(0, n) =~= joined);
    assert(bytes.subrange(n + 4, bytes.len() as int) =~= body);
    lemma_split_join(lines);
    assert(lines.first() == start_line(header.line));
    assert(lines.subrange(1, lines.len() as int) =~= field_lines(header.fields));
    lemma_fields_parse(header.fields);
}

/// Round trip: the header that a parse yields, serialized and put in front of
/// the body that the parse left, parses to the same header and the same body.
/// The serialized block stands for the block that was parsed: it differs from
/// it at most in whitespace that the parse drops and in lines that a later
/// line of the same name replaced.
pub proof fn lemma_round_trip(bytes: Seq<u8>)
    requires
        parse_spec(bytes) is Ok,
    ensures
        ({
            let (header, body) = parse_spec(bytes).unwrap();
            parse_spec(serialize_spec(header) + body) == parse_spec(bytes)
        }),
{
    let (header, body) = parse_spec(bytes).unwrap();
    lemma_parsed_is_well_formed(bytes);
    lemma_parse_undoes_serialize(header, body);
}

} // verus!
