//! The RSV byte format: a table of optional text values is linearized with
//! three reserved sentinel bytes that can never occur inside UTF-8 text.
//!
//! A value is written as its UTF-8 bytes (or the single null marker byte)
//! followed by `VALUE_TERMINATOR`; a row is the concatenation of its values
//! followed by `ROW_TERMINATOR`; a document is the concatenation of its rows.
use vstd::prelude::*;
use vstd::utf8::decode_utf8;
use vstd::utf8::encode_utf8;
use vstd::utf8::encode_utf8_decode_utf8;
use vstd::utf8::encode_utf8_valid_utf8;
use vstd::utf8::is_continuation_byte;
use vstd::utf8::length_of_first_scalar;
use vstd::utf8::pop_first_scalar;
use vstd::utf8::valid_first_scalar;
use vstd::utf8::valid_utf8;

verus! {

/// Ends every value, including the last one of a row.
pub const VALUE_TERMINATOR: u8 = 0xFF;

/// Ends every row; a well-formed non-empty document ends with this byte.
pub const ROW_TERMINATOR: u8 = 0xFD;

/// A value span consisting of exactly this byte denotes a null value.
pub const NULL_VALUE: u8 = 0xFE;

/// Why a byte sequence was rejected by the decoder.
#[derive(Clone, Copy, Debug, PartialEq, Eq, Structural)]
pub enum DecodeError {
    /// The input is non-empty and its last byte is not `ROW_TERMINATOR`.
    IncompleteDocument,
    /// A `ROW_TERMINATOR` appeared mid-value, without a closing `VALUE_TERMINATOR` before it.
    IncompleteRow,
    /// A value span is neither empty, nor the null marker, nor valid UTF-8.
    InvalidUtf8Value,
}

/// A decoded table: rows of values, where a value is text (`Some`) or null (`None`).
pub type SpecTable = Seq<Seq<Option<Seq<char>>>>;

/// The bytes that stand for one value: the null marker for `None`,
/// the UTF-8 encoding of the text for `Some`.
pub open spec fn encoded_value(v: Option<Seq<char>>) -> Seq<u8> {
    match v {
        Some(text) => encode_utf8(text),
        None => seq![NULL_VALUE],
    }
}

/// The bytes of one row: every value followed by `VALUE_TERMINATOR`.
pub open spec fn encoded_row(row: Seq<Option<Seq<char>>>) -> Seq<u8>
    decreases row.len(),
{
    if row.len() == 0 {
        seq![]
    } else {
        encoded_value(row[0]) + seq![VALUE_TERMINATOR] + encoded_row(row.drop_first())
    }
}

/// The bytes of a whole table: every row followed by `ROW_TERMINATOR`.
pub open spec fn encoded_table(table: SpecTable) -> Seq<u8>
    decreases table.len(),
{
    if table.len() == 0 {
        seq![]
    } else {
        encoded_row(table[0]) + seq![ROW_TERMINATOR] + encoded_table(table.drop_first())
    }
}

/// True of the two bytes that close a value span: the scan stops at either.
pub open spec fn is_terminator(b: u8) -> bool {
    b == VALUE_TERMINATOR || b == ROW_TERMINATOR
}

/// Index of the first terminator byte, or `bytes.len()` if there is none.
pub open spec fn first_terminator(bytes: Seq<u8>) -> nat
    decreases bytes.len(),
{
    if bytes.len() == 0 {
        0
    } else if is_terminator(bytes[0]) {
        0
    } else {
        1 + first_terminator(bytes.drop_first())
    }
}

/// The meaning of one closed value span: empty text, null, or UTF-8 text.
pub open spec fn parse_value(span: Seq<u8>) -> Result<Option<Seq<char>>, DecodeError> {
    if span.len() == 0 {
        Ok(Some(Seq::empty()))
    } else if span.len() == 1 && span[0] == NULL_VALUE {
        Ok(None)
    } else if valid_utf8(span) {
        Ok(Some(decode_utf8(span)))
    } else {
        Err(DecodeError::InvalidUtf8Value)
    }
}

/// One left-to-right scan over the remaining bytes, carrying the row in
/// progress and the rows already completed.  Mirrors the decoder's cursor:
/// the next terminator closes either a value (`VALUE_TERMINATOR`) or, if it
/// stands exactly at the cursor, a row (`ROW_TERMINATOR`).
pub open spec fn scan_rows(bytes: Seq<u8>, row: Seq<Option<Seq<char>>>, done: SpecTable) -> Result<
    SpecTable,
    DecodeError,
>
    decreases bytes.len(),
{
    if bytes.len() == 0 {
        Ok(done)
    } else {
        let j = first_terminator(bytes);
        if j >= bytes.len() {
            Err(DecodeError::IncompleteDocument)
        } else if bytes[j as int] == ROW_TERMINATOR {
            if j == 0 {
                scan_rows(bytes.drop_first(), seq![], done.push(row))
            } else {
                Err(DecodeError::IncompleteRow)
            }
        } else {
            match parse_value(bytes.take(j as int)) {
                Ok(v) => scan_rows(bytes.skip(j + 1 as int), row.push(v), done),
                Err(e) => Err(e),
            }
        }
    }
}

/// What decoding a byte sequence yields: the table, or the first error met.
/// A non-empty document must end with `ROW_TERMINATOR`; then the scan runs
/// from the start with nothing accumulated.
pub open spec fn spec_decode(bytes: Seq<u8>) -> Result<SpecTable, DecodeError> {
    if bytes.len() > 0 && bytes.last() != ROW_TERMINATOR {
        Err(DecodeError::IncompleteDocument)
    } else {
        scan_rows(bytes, seq![], seq![])
    }
}

/// Every byte of a valid UTF-8 sequence is a leading byte (at most `0xF7`)
/// or a continuation byte (at most `0xBF`), so none of the three reserved
/// bytes `0xFD`, `0xFE`, `0xFF` ever occurs in encoded text.
pub proof fn lemma_valid_utf8_byte_bound(bytes: Seq<u8>)
    requires
        valid_utf8(bytes),
    ensures
        forall|i: int| 0 <= i < bytes.len() ==> bytes[i] < 0xF8,
    decreases bytes.len(),
{
    if bytes.len() > 0 {
        let n = length_of_first_scalar(bytes);
        let rest = pop_first_scalar(bytes);
        assert(valid_first_scalar(bytes));
        assert(1 <= n <= bytes.len());
        lemma_valid_utf8_byte_bound(rest);
        assert forall|i: int| 0 <= i < bytes.len() implies bytes[i] < 0xF8 by {
            if i < n {
                assert(i > 0 ==> is_continuation_byte(bytes[i]));
            } else {
                assert(rest[i - n] == bytes[i]);
            }
        }
    }
}

/// Only the empty text encodes to the empty byte sequence.
pub proof fn lemma_encode_utf8_nonempty(text: Seq<char>)
    requires
        text.len() > 0,
    ensures
        encode_utf8(text).len() > 0,
{
}

/// An index with no terminator before it and a terminator at it
/// (or the end of the sequence) is `first_terminator`.
pub proof fn lemma_first_terminator_at(bytes: Seq<u8>, k: int)
    requires
        0 <= k <= bytes.len(),
        forall|i: int| 0 <= i < k ==> !is_terminator(bytes[i]),
        k < bytes.len() ==> is_terminator(bytes[k]),
    ensures
        first_terminator(bytes) == k,
    decreases bytes.len(),
{
    if k > 0 {
        assert(!is_terminator(bytes[0]));
        assert forall|i: int| 0 <= i < k - 1 implies !is_terminator(bytes.drop_first()[i]) by {
            assert(bytes.drop_first()[i] == bytes[i + 1]);
        }
        assert(k - 1 < bytes.drop_first().len() ==> is_terminator(bytes.drop_first()[k - 1]));
        lemma_first_terminator_at(bytes.drop_first(), k - 1);
    }
}

/// No byte of an encoded value is a terminator: the null marker is neither,
/// and UTF-8 text contains no reserved byte.  Text bytes are never the null
/// marker either, so a decoded null is never mistaken text.
pub proof fn lemma_encoded_value_terminator_free(v: Option<Seq<char>>)
    ensures
        forall|i: int| 0 <= i < encoded_value(v).len() ==> !is_terminator(
            #[trigger] encoded_value(v)[i],
        ),
        v is Some ==> forall|i: int|
            0 <= i < encoded_value(v).len() ==> #[trigger] encoded_value(v)[i] != NULL_VALUE,
{
    if let Some(text) = v {
        encode_utf8_valid_utf8(text);
        lemma_valid_utf8_byte_bound(encode_utf8(text));
    }
}

/// A closed value span decodes back to the value it was encoded from.
pub proof fn lemma_parse_value_round_trip(v: Option<Seq<char>>)
    ensures
        parse_value(encoded_value(v)) == Ok::<Option<Seq<char>>, DecodeError>(v),
{
    match v {
        None => {
        },
        Some(text) => {
            if text.len() == 0 {
                assert(text =~= Seq::<char>::empty());
            } else {
                lemma_encode_utf8_nonempty(text);
                encode_utf8_valid_utf8(text);
                lemma_valid_utf8_byte_bound(encode_utf8(text));
                encode_utf8_decode_utf8(text);
            }
        },
    }
}

/// Appending one more value to a row appends its span and a value terminator.
pub proof fn lemma_encoded_row_push(row: Seq<Option<Seq<char>>>, v: Option<Seq<char>>)
    ensures
        encoded_row(row.push(v)) == encoded_row(row) + encoded_value(v) + seq![VALUE_TERMINATOR],
    decreases row.len(),
{
    if row.len() == 0 {
        assert(row.push(v)[0] == v);
        assert(row.push(v).drop_first() =~= row);
        assert(encoded_row(row.push(v)) =~= encoded_row(row) + encoded_value(v) + seq![
            VALUE_TERMINATOR,
        ]);
    } else {
        lemma_encoded_row_push(row.drop_first(), v);
        assert(row.push(v)[0] == row[0]);
        assert(row.push(v).drop_first() =~= row.drop_first().push(v));
        assert(encoded_row(row.push(v)) == encoded_value(row[0]) + seq![VALUE_TERMINATOR]
            + encoded_row(row.drop_first().push(v)));
        assert(encoded_row(row.push(v)) =~= encoded_row(row) + encoded_value(v) + seq![
            VALUE_TERMINATOR,
        ]);
    }
}

/// Appending one more row to a table appends its bytes and a row terminator.
pub proof fn lemma_encoded_table_push(table: SpecTable, row: Seq<Option<Seq<char>>>)
    ensures
        encoded_table(table.push(row)) == encoded_table(table) + encoded_row(row) + seq![
            ROW_TERMINATOR,
        ],
    decreases table.len(),
{
    if table.len() == 0 {
        assert(table.push(row)[0] == row);
        assert(table.push(row).drop_first() =~= table);
        assert(encoded_table(table.push(row)) =~= encoded_table(table) + encoded_row(row) + seq![
            ROW_TERMINATOR,
        ]);
    } else {
        lemma_encoded_table_push(table.drop_first(), row);
        assert(table.push(row)[0] == table[0]);
        assert(table.push(row).drop_first() =~= table.drop_first().push(row));
        assert(encoded_table(table.push(row)) =~= encoded_table(table) + encoded_row(row) + seq![
            ROW_TERMINATOR,
        ]);
    }
}

/// A non-empty table encodes to bytes ending with the row terminator.
pub proof fn lemma_encoded_table_last(table: SpecTable)
    requires
        table.len() > 0,
    ensures
        encoded_table(table).len() > 0,
        encoded_table(table).last() == ROW_TERMINATOR,
    decreases table.len(),
{
    if table.len() > 1 {
        lemma_encoded_table_last(table.drop_first());
    } else {
        assert(encoded_table(table.drop_first()) =~= Seq::<u8>::empty());
    }
}

/// The scan takes an encoded value together with its terminator in one step,
/// moving the value into the row in progress.
proof fn lemma_scan_value(v: Option<Seq<char>>, rest: Seq<u8>, row: Seq<Option<Seq<char>>>, done: SpecTable)
    ensures
        scan_rows(encoded_value(v) + seq![VALUE_TERMINATOR] + rest, row, done) == scan_rows(
            rest,
            row.push(v),
            done,
        ),
{
    let ev = encoded_value(v);
    let b = ev + seq![VALUE_TERMINATOR] + rest;
    let m = ev.len() as int;
    lemma_encoded_value_terminator_free(v);
    assert forall|i: int| 0 <= i < m implies !is_terminator(b[i]) by {
        assert(b[i] == ev[i]);
    }
    assert(b[m] == VALUE_TERMINATOR);
    lemma_first_terminator_at(b, m);
    assert(b.take(m) =~= ev);
    lemma_parse_value_round_trip(v);
    assert(b.skip(m + 1) =~= rest);
}

/// The scan takes a whole encoded row and its terminator, completing the row
/// in progress.
proof fn lemma_scan_row(vals: Seq<Option<Seq<char>>>, rest: Seq<u8>, row: Seq<Option<Seq<char>>>, done: SpecTable)
    ensures
        scan_rows(encoded_row(vals) + seq![ROW_TERMINATOR] + rest, row, done) == scan_rows(
            rest,
            Seq::empty(),
            done.push(row + vals),
        ),
    decreases vals.len(),
{
    let b = encoded_row(vals) + seq![ROW_TERMINATOR] + rest;
    if vals.len() == 0 {
        assert(encoded_row(vals) =~= Seq::<u8>::empty());
        assert(b[0] == ROW_TERMINATOR);
        lemma_first_terminator_at(b, 0);
        assert(b.drop_first() =~= rest);
        assert(row + vals =~= row);
    } else {
        let v0 = vals[0];
        let tail = vals.drop_first();
        assert(b =~= encoded_value(v0) + seq![VALUE_TERMINATOR] + (encoded_row(tail) + seq![
            ROW_TERMINATOR,
        ] + rest));
        lemma_scan_value(v0, encoded_row(tail) + seq![ROW_TERMINATOR] + rest, row, done);
        lemma_scan_row(tail, rest, row.push(v0), done);
        assert(row.push(v0) + tail =~= row + vals);
    }
}

/// The scan over a whole encoded table appends its rows to the accumulator.
proof fn lemma_scan_table(table: SpecTable, done: SpecTable)
    ensures
        scan_rows(encoded_table(table), Seq::empty(), done) == Ok::<SpecTable, DecodeError>(
            done + table,
        ),
    decreases table.len(),
{
    if table.len() == 0 {
        assert(encoded_table(table) =~= Seq::<u8>::empty());
        assert(done + table =~= done);
    } else {
        assert(encoded_table(table) =~= encoded_row(table[0]) + seq![ROW_TERMINATOR]
            + encoded_table(table.drop_first()));
        lemma_scan_row(table[0], encoded_table(table.drop_first()), Seq::empty(), done);
        assert(Seq::<Option<Seq<char>>>::empty() + table[0] =~= table[0]);
        lemma_scan_table(table.drop_first(), done.push(table[0]));
        assert(done.push(table[0]) + table.drop_first() =~= done + table);
    }
}

/// Pushes an element and tracks the effect on the deep view.
fn push_deep<T: DeepView>(v: &mut Vec<T>, x: T)
    ensures
        final(v).deep_view() == old(v).deep_view().push(x.deep_view()),
        final(v)@ == old(v)@.push(x),
{
    let ghost prev: Seq<T> = v@;
    v.push(x);
    proof {
        assert(old(v).deep_view().len() == prev.len());
        assert(v.deep_view().len() == v@.len());
        assert forall|k: int| 0 <= k < v@.len() implies v.deep_view()[k] == old(
            v,
        ).deep_view().push(x.deep_view())[k] by {
            assert(v.deep_view()[k] == v@[k].deep_view());
            if k < prev.len() {
                assert(old(v).deep_view()[k] == prev[k].deep_view());
            }
        }
        assert(v.deep_view() =~= old(v).deep_view().push(x.deep_view()));
    }
}

/// Copies `bytes[start..end]` into a fresh vector.
fn copy_range(bytes: &[u8], start: usize, end: usize) -> (out: Vec<u8>)
    requires
        start <= end <= bytes@.len(),
    ensures
        out@ == bytes@.subrange(start as int, end as int),
{
    let mut out: Vec<u8> = Vec::new();
    let mut k: usize = start;
    while k < end
        invariant
            start <= k <= end <= bytes@.len(),
            out@ == bytes@.subrange(start as int, k as int),
        decreases end - k,
    {
        out.push(bytes[k]);
        proof {
            assert(out@ =~= bytes@.subrange(start as int, k as int + 1));
        }
        k = k + 1;
    }
    out
}

/// Appends all of `bytes` to `out`.
fn push_bytes(out: &mut Vec<u8>, bytes: &[u8])
    ensures
        final(out)@ == old(out)@ + bytes@,
{
    let mut k: usize = 0;
    while k < bytes.len()
        invariant
            k <= bytes@.len(),
            out@ == old(out)@ + bytes@.take(k as int),
        decreases bytes@.len() - k,
    {
        out.push(bytes[k]);
        proof {
            assert(out@ =~= old(out)@ + bytes@.take(k as int + 1));
        }
        k = k + 1;
    }
    proof {
        assert(bytes@.take(bytes@.len() as int) =~= bytes@);
    }
}

/// Relies on `String::from_utf8`: it succeeds exactly on input that is valid
/// UTF-8, and then returns the text that the bytes encode.
#[verifier::external_body]
fn bytes_to_string(bytes: Vec<u8>) -> (r: Option<String>)
    ensures
        r is Some <==> valid_utf8(bytes@),
        r matches Some(text) ==> text@ == decode_utf8(bytes@),
{
    String::from_utf8(bytes).ok()
}

/// Round-trip law: decoding the encoding of any table yields that table.
/// This covers null values too: text never encodes to the null marker byte,
/// because no UTF-8 encoding contains it.
pub proof fn lemma_decode_encode_round_trip(table: SpecTable)
    ensures
        spec_decode(encoded_table(table)) == Ok::<SpecTable, DecodeError>(table),
{
    if table.len() > 0 {
        lemma_encoded_table_last(table);
    }
    lemma_scan_table(table, Seq::empty());
    assert(Seq::<Seq<Option<Seq<char>>>>::empty() + table =~= table);
}

/// Encodes a table of rows of optional text values into one flat byte
/// sequence: each value's bytes (the null marker for `None`, the UTF-8 bytes
/// for `Some`) followed by `VALUE_TERMINATOR`, and `ROW_TERMINATOR` after
/// each row.  Encoding is total: every table can be written.
pub fn encode_rsv(rows: &Vec<Vec<Option<String>>>) -> (out: Vec<u8>)
    ensures
        out@ == encoded_table(rows.deep_view()),
{
    let ghost table: SpecTable = rows.deep_view();
    let mut out: Vec<u8> = Vec::new();
    let mut i: usize = 0;
    proof {
        assert(table.len() == rows@.len());
        assert(encoded_table(table.take(0)) =~= Seq::<u8>::empty());
    }
    while i < rows.len()
        invariant
            i <= rows@.len(),
            table == rows.deep_view(),
            table.len() == rows@.len(),
            out@ == encoded_table(table.take(i as int)),
        decreases rows@.len() - i,
    {
        let row = &rows[i];
        let ghost vals: Seq<Option<Seq<char>>> = row.deep_view();
        proof {
            assert(table[i as int] == rows@[i as int].deep_view());
            assert(vals.len() == row@.len());
            assert(encoded_row(vals.take(0)) =~= Seq::<u8>::empty());
        }
        let mut j: usize = 0;
        while j < row.len()
            invariant
                j <= row@.len(),
                vals == row.deep_view(),
                vals.len() == row@.len(),
                out@ == encoded_table(table.take(i as int)) + encoded_row(vals.take(j as int)),
            decreases row@.len() - j,
        {
            proof {
                assert(vals[j as int] == row@[j as int].deep_view());
            }
            match &row[j] {
                Some(text) => {
                    let bs: &[u8] = text.as_str().as_bytes();
                    proof {
                        assert(bs@ == encode_utf8(text@));
                        assert(encoded_value(vals[j as int]) == bs@);
                    }
                    push_bytes(&mut out, bs);
                },
                None => {
                    out.push(NULL_VALUE);
                    proof {
                        assert(out@ =~= encoded_table(table.take(i as int)) + encoded_row(
                            vals.take(j as int),
                        ) + encoded_value(vals[j as int]));
                    }
                },
            }
            out.push(VALUE_TERMINATOR);
            proof {
                lemma_encoded_row_push(vals.take(j as int), vals[j as int]);
                assert(vals.take(j as int).push(vals[j as int]) =~= vals.take(j as int + 1));
                assert(out@ =~= encoded_table(table.take(i as int)) + encoded_row(
                    vals.take(j as int + 1),
                ));
            }
            j = j + 1;
        }
        out.push(ROW_TERMINATOR);
        proof {
            assert(vals.take(vals.len() as int) =~= vals);
            lemma_encoded_table_push(table.take(i as int), vals);
            assert(table.take(i as int).push(table[i as int]) =~= table.take(i as int + 1));
            assert(out@ =~= encoded_table(table.take(i as int + 1)));
        }
        i = i + 1;
    }
    proof {
        assert(table.take(table.len() as int) =~= table);
    }
    out
}

/// What `decode_rsv` must return for the given input: exactly the table or
/// the error that `spec_decode` names.
pub open spec fn decodes_to(bytes: Seq<u8>, r: Result<Vec<Vec<Option<String>>>, DecodeError>) -> bool {
    match r {
        Ok(table) => spec_decode(bytes) == Ok::<SpecTable, DecodeError>(table.deep_view()),
        Err(e) => spec_decode(bytes) == Err::<SpecTable, DecodeError>(e),
    }
}

/// Decoding has no hidden state: the outcome is a function of the input
/// bytes alone, so two decodes of the same bytes succeed or fail together,
/// fail with the same error kind, and succeed with the same table.
pub proof fn lemma_decode_deterministic(
    bytes: Seq<u8>,
    r1: Result<Vec<Vec<Option<String>>>, DecodeError>,
    r2: Result<Vec<Vec<Option<String>>>, DecodeError>,
)
    requires
        decodes_to(bytes, r1),
        decodes_to(bytes, r2),
    ensures
        r1 is Ok <==> r2 is Ok,
        r1 is Err && r2 is Err ==> r1->Err_0 == r2->Err_0,
        r1 is Ok && r2 is Ok ==> (r1->Ok_0).deep_view() == (r2->Ok_0).deep_view(),
{
}

/// Decodes a byte sequence into a table, validating the format.  A non-empty
/// document must end with `ROW_TERMINATOR`; a `ROW_TERMINATOR` must stand
/// directly after a closed value (or at the start of a row); and a value span
/// must be empty, the null marker, or valid UTF-8.  The first violation fails
/// the whole decode with the matching error; no partial table is returned.
pub fn decode_rsv(bytes: &[u8]) -> (r: Result<Vec<Vec<Option<String>>>, DecodeError>)
    ensures
        decodes_to(bytes@, r),
{
    if bytes.len() > 0 && bytes[bytes.len() - 1] != ROW_TERMINATOR {
        return Err(DecodeError::IncompleteDocument);
    }
    let mut table: Vec<Vec<Option<String>>> = Vec::new();
    let mut current_row: Vec<Option<String>> = Vec::new();
    let mut value_start: usize = 0;
    let mut i: usize = 0;
    proof {
        assert(bytes@.skip(0) =~= bytes@);
        assert(table.deep_view() =~= Seq::<Seq<Option<Seq<char>>>>::empty());
        assert(current_row.deep_view() =~= Seq::<Option<Seq<char>>>::empty());
    }
    while i < bytes.len()
        invariant
            value_start <= i <= bytes@.len(),
            bytes@.len() > 0 ==> bytes@.last() == ROW_TERMINATOR,
            forall|k: int| value_start <= k < i ==> !is_terminator(bytes@[k]),
            scan_rows(bytes@.skip(value_start as int), current_row.deep_view(), table.deep_view())
                == scan_rows(bytes@, Seq::empty(), Seq::empty()),
        decreases bytes@.len() - i,
    {
        let ghost suffix: Seq<u8> = bytes@.skip(value_start as int);
        let ghost j: int = i - value_start;
        let ghost rdv: Seq<Option<Seq<char>>> = current_row.deep_view();
        let ghost tdv: SpecTable = table.deep_view();
        let b: u8 = bytes[i];
        proof {
            if is_terminator(b) {
                assert forall|k: int| 0 <= k < j implies !is_terminator(suffix[k]) by {
                    assert(suffix[k] == bytes@[value_start + k]);
                }
                assert(suffix[j] == bytes@[i as int]);
                lemma_first_terminator_at(suffix, j);
            }
            assert(spec_decode(bytes@) == scan_rows(bytes@, Seq::empty(), Seq::empty()));
        }
        if b == VALUE_TERMINATOR {
            let span: Vec<u8> = copy_range(bytes, value_start, i);
            let ghost spanv: Seq<u8> = span@;
            proof {
                assert(suffix.take(j) =~= spanv);
            }
            if span.len() == 0 {
                push_deep(&mut current_row, Some(String::new()));
                proof {
                    assert(current_row.deep_view() =~= rdv.push(Some(Seq::<char>::empty())));
                }
            } else if span.len() == 1 && span[0] == NULL_VALUE {
                push_deep(&mut current_row, None);
            } else {
                match bytes_to_string(span) {
                    Some(text) => {
                        push_deep(&mut current_row, Some(text));
                    },
                    None => {
                        proof {
                            assert(parse_value(spanv) == Err::<Option<Seq<char>>, DecodeError>(
                                DecodeError::InvalidUtf8Value,
                            ));
                            assert(scan_rows(suffix, rdv, tdv) == Err::<SpecTable, DecodeError>(
                                DecodeError::InvalidUtf8Value,
                            ));
                        }
                        return Err(DecodeError::InvalidUtf8Value);
                    },
                }
            }
            proof {
                assert(parse_value(spanv) is Ok);
                let v = parse_value(spanv)->Ok_0;
                assert(current_row.deep_view() =~= rdv.push(v));
                assert(suffix.skip(j + 1) =~= bytes@.skip(i as int + 1));
                assert(scan_rows(suffix, rdv, tdv) == scan_rows(
                    bytes@.skip(i as int + 1),
                    rdv.push(v),
                    tdv,
                ));
            }
            value_start = i + 1;
        } else if b == ROW_TERMINATOR {
            if value_start != i {
                proof {
                    assert(scan_rows(suffix, rdv, tdv) == Err::<SpecTable, DecodeError>(
                        DecodeError::IncompleteRow,
                    ));
                }
                return Err(DecodeError::IncompleteRow);
            }
            push_deep(&mut table, current_row);
            current_row = Vec::new();
            proof {
                assert(current_row.deep_view() =~= Seq::<Option<Seq<char>>>::empty());
                assert(suffix.drop_first() =~= bytes@.skip(i as int + 1));
                assert(scan_rows(suffix, rdv, tdv) == scan_rows(
                    bytes@.skip(i as int + 1),
                    Seq::empty(),
                    tdv.push(rdv),
                ));
            }
            value_start = i + 1;
        } else {
            proof {
                assert(!is_terminator(bytes@[i as int]));
            }
        }
        i = i + 1;
    }
    proof {
        if value_start < bytes@.len() {
            assert(!is_terminator(bytes@[bytes@.len() - 1]));
            assert(false);
        }
        assert(bytes@.skip(value_start as int) =~= Seq::<u8>::empty());
        assert(spec_decode(bytes@) == scan_rows(bytes@, Seq::empty(), Seq::empty()));
    }
    Ok(table)
}

} // verus!
