//! The snapshot reader: parses one file fully into a header line plus
//! body rows of comma-separated fields.  Malformed body lines are
//! skipped; the whole read is rejected only when the header line cannot
//! be decoded.
use vstd::prelude::*;
use vstd::utf8::{decode_utf8, valid_utf8};

use crate::decode::{bytes_to_string, split_bytes, split_on, CARRIAGE_RETURN, COMMA, NEWLINE};
use crate::rows::{line_fields, trim_cr};

verus! {

/// A snapshot of one file's header line, as served for a header request.
pub struct HeaderResponse {
    pub path: String,
    pub headers: Vec<String>,
}

/// The first line of a byte sequence.
pub open spec fn first_line(content: Seq<u8>) -> Seq<u8> {
    split_on(content, NEWLINE)[0]
}

/// The fields of the header line.
pub open spec fn header_fields(content: Seq<u8>) -> Seq<Seq<u8>> {
    line_fields(first_line(content))
}

/// The header line decodes when each of its fields is valid UTF-8.
pub open spec fn headers_ok(content: Seq<u8>) -> bool {
    forall|i: int|
        0 <= i < header_fields(content).len() ==> valid_utf8(#[trigger] header_fields(content)[i])
}

/// Each field decoded, in order.
pub open spec fn decode_fields(fs: Seq<Seq<u8>>) -> Seq<Seq<char>>
    decreases fs.len(),
{
    if fs.len() == 0 {
        Seq::empty()
    } else {
        decode_fields(fs.drop_last()).push(decode_utf8(fs.last()))
    }
}

/// A body line is kept when it has as many fields as the header line and
/// every field is valid UTF-8.
pub open spec fn body_line_ok(l: Seq<u8>, k: int) -> bool {
    &&& line_fields(l).len() == k
    &&& forall|i: int| 0 <= i < line_fields(l).len() ==> valid_utf8(#[trigger] line_fields(l)[i])
}

/// The decoded rows among a sequence of body lines.
pub open spec fn body_rows_model(lines: Seq<Seq<u8>>, k: int) -> Seq<Seq<Seq<char>>>
    decreases lines.len(),
{
    if lines.len() == 0 {
        Seq::empty()
    } else {
        let rest = body_rows_model(lines.drop_last(), k);
        if body_line_ok(lines.last(), k) {
            rest.push(decode_fields(line_fields(lines.last())))
        } else {
            rest
        }
    }
}

/// The decoded body of a snapshot: every line after the header with the
/// header's field count, malformed lines skipped.
pub open spec fn snapshot_body_model(content: Seq<u8>) -> Seq<Seq<Seq<char>>> {
    let lines = split_on(content, NEWLINE);
    body_rows_model(lines.drop_first(), header_fields(content).len() as int)
}

/// Splits one line into its fields, after removing a trailing carriage
/// return.
fn fields_of_line(line: &[u8]) -> (r: Vec<Vec<u8>>)
    ensures
        r.deep_view() == line_fields(line@),
{
    let n = line.len();
    let trimmed: &[u8] = if n > 0 && line[n - 1] == CARRIAGE_RETURN {
        vstd::slice::slice_subrange(line, 0, n - 1)
    } else {
        line
    };
    proof {
        assert(trimmed@ == trim_cr(line@));
    }
    split_bytes(trimmed, COMMA)
}

/// Decodes every field of one line; `None` when one is not valid UTF-8.
fn decode_line_fields(fields: &Vec<Vec<u8>>) -> (r: Option<Vec<String>>)
    ensures
        r is Some <==> (forall|i: int|
            0 <= i < fields.deep_view().len() ==> valid_utf8(#[trigger] fields.deep_view()[i])),
        r matches Some(hs) ==> hs.deep_view() == decode_fields(fields.deep_view()),
{
    let ghost fd = fields.deep_view();
    let mut out: Vec<String> = Vec::new();
    let mut i: usize = 0;
    while i < fields.len()
        invariant
            0 <= i <= fields@.len(),
            fd == fields.deep_view(),
            forall|k: int| 0 <= k < i ==> valid_utf8(#[trigger] fd[k]),
            out.deep_view() == decode_fields(fd.take(i as int)),
        decreases fields@.len() - i,
    {
        proof {
            assert(fd[i as int] =~= fields@[i as int]@);
            assert(fd.take(i + 1).drop_last() =~= fd.take(i as int));
            assert(fd.take(i + 1).last() == fd[i as int]);
        }
        match bytes_to_string(fields[i].as_slice()) {
            Some(s) => {
                let ghost prev = out.deep_view();
                out.push(s);
                proof {
                    assert(out.deep_view() =~~= prev.push(decode_utf8(fd[i as int])));
                }
            },
            None => {
                return None;
            },
        }
        i = i + 1;
    }
    proof {
        assert(fd.take(fd.len() as int) == fd);
    }
    Some(out)
}

/// The decoded header fields of the file's first line; `DecodeError`
/// exactly when some header field is not valid UTF-8.
pub fn snapshot_headers(content: &[u8]) -> (r: Result<Vec<String>, crate::RequestError>)
    ensures
        r is Ok <==> headers_ok(content@),
        r matches Ok(hs) ==> hs.deep_view() == decode_fields(header_fields(content@)),
        r matches Err(e) ==> e == crate::RequestError::DecodeError,
{
    let lines = split_bytes(content, NEWLINE);
    proof {
        crate::decode::lemma_split_on_len(content@, NEWLINE);
        assert(lines.deep_view()[0] == lines@[0]@);
    }
    let fields = fields_of_line(lines[0].as_slice());
    match decode_line_fields(&fields) {
        Some(hs) => Ok(hs),
        None => Err(crate::RequestError::DecodeError),
    }
}

/// The decoded body rows of the file: every line after the first that
/// has the header's field count and decodes; other lines are skipped.
pub fn snapshot_body(content: &[u8]) -> (r: Vec<Vec<String>>)
    ensures
        r.deep_view() == snapshot_body_model(content@),
{
    let lines = split_bytes(content, NEWLINE);
    let ghost all = split_on(content@, NEWLINE);
    let ghost body = all.drop_first();
    proof {
        crate::decode::lemma_split_on_len(content@, NEWLINE);
        assert(lines.deep_view()[0] == lines@[0]@);
    }
    let head_fields = fields_of_line(lines[0].as_slice());
    let expected = head_fields.len();
    let ghost k = header_fields(content@).len() as int;
    proof {
        assert(expected as int == k);
    }
    let mut out: Vec<Vec<String>> = Vec::new();
    let mut i: usize = 1;
    while i < lines.len()
        invariant
            1 <= i <= lines@.len(),
            lines.deep_view() == all,
            body == all.drop_first(),
            expected as int == k,
            out.deep_view() == body_rows_model(body.take(i - 1), k),
        decreases lines@.len() - i,
    {
        proof {
            assert(body.take(i as int).drop_last() =~= body.take(i - 1));
            assert(body.take(i as int).last() == body[i - 1]);
            assert(body[i - 1] == all[i as int]);
            assert(lines@[i as int]@ =~= lines.deep_view()[i as int]);
        }
        let fields = fields_of_line(lines[i].as_slice());
        if fields.len() == expected {
            match decode_line_fields(&fields) {
                Some(row) => {
                    let ghost prev = out.deep_view();
                    out.push(row);
                    proof {
                        assert(body_line_ok(body[i - 1], k));
                        assert(out.deep_view() =~~= prev.push(
                            decode_fields(line_fields(body[i - 1])),
                        ));
                    }
                },
                None => {
                    proof {
                        assert(!body_line_ok(body[i - 1], k));
                    }
                },
            }
        } else {
            proof {
                assert(!body_line_ok(body[i - 1], k));
            }
        }
        i = i + 1;
    }
    proof {
        assert(body.take(body.len() as int) == body);
        assert(body.take(lines@.len() - 1) == body);
    }
    out
}

/// One row's fields joined with commas.
pub open spec fn join_fields(row: Seq<Seq<char>>) -> Seq<char>
    decreases row.len(),
{
    if row.len() == 0 {
        Seq::empty()
    } else if row.len() == 1 {
        row[0]
    } else {
        join_fields(row.drop_last()) + seq![','] + row.last()
    }
}

/// The rows joined with newlines.
pub open spec fn joined_rows(rows: Seq<Seq<Seq<char>>>) -> Seq<char>
    decreases rows.len(),
{
    if rows.len() == 0 {
        Seq::empty()
    } else if rows.len() == 1 {
        join_fields(rows[0])
    } else {
        joined_rows(rows.drop_last()) + seq!['\n'] + join_fields(rows.last())
    }
}

/// Appends one row's fields, comma separated, to the text.
fn push_row_text(text: &mut String, row: &Vec<String>)
    ensures
        final (text)@ == old(text)@ + join_fields(row.deep_view()),
{
    let ghost rd = row.deep_view();
    let mut j: usize = 0;
    while j < row.len()
        invariant
            0 <= j <= row@.len(),
            rd == row.deep_view(),
            text@ == old(text)@ + join_fields(rd.take(j as int)),
        decreases row@.len() - j,
    {
        proof {
            assert(rd.take(j + 1).drop_last() =~= rd.take(j as int));
            assert(rd.take(j + 1).last() == rd[j as int]);
            assert(rd[j as int] == row@[j as int]@);
        }
        if j > 0 {
            text.push(',');
        }
        vstd::string::StringExecFns::append(text, row[j].as_str());
        proof {
            if j == 0 {
                assert(rd.take(1int) =~= seq![rd[0int]]);
                assert(join_fields(rd.take(1int)) == rd[0int]);
            }
        }
        j = j + 1;
    }
    proof {
        assert(rd.take(rd.len() as int) == rd);
    }
}

/// The snapshot body as one text: fields joined with commas, rows joined
/// with newlines.
pub fn body_text(content: &[u8]) -> (r: String)
    ensures
        r@ == joined_rows(snapshot_body_model(content@)),
{
    let rows = snapshot_body(content);
    let ghost rd = rows.deep_view();
    let mut text = String::new();
    let mut i: usize = 0;
    while i < rows.len()
        invariant
            0 <= i <= rows@.len(),
            rd == rows.deep_view(),
            text@ == joined_rows(rd.take(i as int)),
        decreases rows@.len() - i,
    {
        proof {
            assert(rd.take(i + 1).drop_last() =~= rd.take(i as int));
            assert(rd.take(i + 1).last() == rd[i as int]);
            assert(rd[i as int] =~~= rows@[i as int].deep_view());
        }
        if i > 0 {
            text.push('\n');
        }
        push_row_text(&mut text, &rows[i]);
        proof {
            if i == 0 {
                assert(rd.take(1int) =~= seq![rd[0int]]);
                assert(joined_rows(rd.take(1int)) == join_fields(rd[0int]));
                assert(text@ == joined_rows(rd.take(1int)));
            }
        }
        i = i + 1;
    }
    proof {
        assert(rd.take(rd.len() as int) == rd);
    }
    text
}

} // verus!
