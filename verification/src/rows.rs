//! The engine's log format: one record per line, seven comma-separated
//! fields with the fixed schema `id, iteration, rule_name, rule, when,
//! name, value`.  Malformed lines are skipped, never fatal.
use vstd::prelude::*;
use vstd::utf8::{decode_utf8, valid_utf8};

use crate::decode::{
    bytes_to_string, parse_u64, parse_u64_spec, split_bytes, split_on, CARRIAGE_RETURN, COMMA,
    NEWLINE,
};

verus! {

/// Mathematical model of one decoded record.
pub ghost struct RowModel {
    pub id: Seq<char>,
    pub iteration: u64,
    pub rule_name: Seq<char>,
    pub rule: Seq<char>,
    pub when: Seq<char>,
    pub name: Seq<char>,
    pub value: Seq<char>,
}

/// One decoded record of the engine's log format.
pub struct Row {
    pub id: String,
    pub iteration: u64,
    pub rule_name: String,
    pub rule: String,
    pub when: String,
    pub name: String,
    pub value: String,
}

impl View for Row {
    type V = RowModel;

    open spec fn view(&self) -> RowModel {
        RowModel {
            id: self.id@,
            iteration: self.iteration,
            rule_name: self.rule_name@,
            rule: self.rule@,
            when: self.when@,
            name: self.name@,
            value: self.value@,
        }
    }
}

impl DeepView for Row {
    type V = RowModel;

    open spec fn deep_view(&self) -> RowModel {
        self.view()
    }
}

/// A line with its trailing carriage return, if any, removed.
pub open spec fn trim_cr(line: Seq<u8>) -> Seq<u8> {
    if line.len() > 0 && line.last() == CARRIAGE_RETURN {
        line.drop_last()
    } else {
        line
    }
}

/// The comma-separated fields of one line.
pub open spec fn line_fields(line: Seq<u8>) -> Seq<Seq<u8>> {
    split_on(trim_cr(line), COMMA)
}

/// A line is well formed when it has exactly seven fields, every field is
/// valid UTF-8, and the iteration field reads as a decimal `u64`.
pub open spec fn is_row_line(line: Seq<u8>) -> bool {
    let f = line_fields(line);
    &&& f.len() == 7
    &&& forall|i: int| 0 <= i < 7 ==> valid_utf8(#[trigger] f[i])
    &&& parse_u64_spec(f[1]) is Some
}

/// The record read from a well-formed line.
pub open spec fn row_of_line(line: Seq<u8>) -> RowModel {
    let f = line_fields(line);
    RowModel {
        id: decode_utf8(f[0]),
        iteration: parse_u64_spec(f[1])->Some_0,
        rule_name: decode_utf8(f[2]),
        rule: decode_utf8(f[3]),
        when: decode_utf8(f[4]),
        name: decode_utf8(f[5]),
        value: decode_utf8(f[6]),
    }
}

/// The records among a sequence of lines: one per well-formed line, in
/// order; malformed lines contribute nothing.
pub open spec fn rows_of_lines(lines: Seq<Seq<u8>>) -> Seq<RowModel>
    decreases lines.len(),
{
    if lines.len() == 0 {
        Seq::empty()
    } else {
        let rest = rows_of_lines(lines.drop_last());
        if is_row_line(lines.last()) {
            rest.push(row_of_line(lines.last()))
        } else {
            rest
        }
    }
}

/// The records decoded from a byte sequence, split at newlines.
pub open spec fn rows_of(bytes: Seq<u8>) -> Seq<RowModel> {
    rows_of_lines(split_on(bytes, NEWLINE))
}

/// There are never more records than lines.
pub proof fn lemma_rows_of_lines_len(lines: Seq<Seq<u8>>)
    ensures
        rows_of_lines(lines).len() <= lines.len(),
    decreases lines.len(),
{
    if lines.len() > 0 {
        lemma_rows_of_lines_len(lines.drop_last());
    }
}

/// Bytes below 0x80 (such as an all-digit field) are valid UTF-8.
proof fn lemma_ascii_bytes_valid_utf8(b: Seq<u8>)
    requires
        forall|i: int| 0 <= i < b.len() ==> #[trigger] b[i] < 0x80,
    ensures
        valid_utf8(b),
{
    assert(b.subrange(0, 0) =~= Seq::<u8>::empty());
    reveal_with_fuel(valid_utf8, 1);
    assert(vstd::utf8::partial_valid_utf8(b, 0));
    vstd::utf8::partial_valid_utf8_extend_ascii_block(b, 0, b.len() as int);
    assert(b.subrange(0, b.len() as int) =~= b);
}

/// A field that reads as a decimal number holds only ASCII bytes.
proof fn lemma_numeric_field_valid_utf8(b: Seq<u8>)
    requires
        parse_u64_spec(b) is Some,
    ensures
        valid_utf8(b),
{
    let d = if b.len() > 0 && b[0] == crate::decode::PLUS {
        b.drop_first()
    } else {
        b
    };
    assert(crate::decode::all_digits(d));
    assert forall|i: int| 0 <= i < b.len() implies #[trigger] b[i] < 0x80 by {
        if b.len() > 0 && b[0] == crate::decode::PLUS {
            if i > 0 {
                assert(d[i - 1] == b[i]);
                assert(crate::decode::is_digit(d[i - 1]));
            }
        } else {
            assert(crate::decode::is_digit(d[i]));
        }
    }
    lemma_ascii_bytes_valid_utf8(b);
}

/// Decodes one line; `None` exactly on a malformed line.
pub fn parse_row_line(line: &[u8]) -> (r: Option<Row>)
    ensures
        r is Some <==> is_row_line(line@),
        r matches Some(row) ==> row@ == row_of_line(line@),
{
    let n = line.len();
    let trimmed: &[u8] = if n > 0 && line[n - 1] == CARRIAGE_RETURN {
        vstd::slice::slice_subrange(line, 0, n - 1)
    } else {
        line
    };
    proof {
        assert(trimmed@ == trim_cr(line@));
    }
    let fields = split_bytes(trimmed, COMMA);
    let ghost f = line_fields(line@);
    proof {
        assert(fields.deep_view().len() == fields@.len());
        assert(forall|k: int|
            0 <= k < fields@.len() ==> #[trigger] fields@[k]@ =~= fields.deep_view()[k]);
    }
    if fields.len() != 7 {
        return None;
    }
    let iteration = match parse_u64(fields[1].as_slice()) {
        Some(v) => v,
        None => {
            return None;
        },
    };
    let id = match bytes_to_string(fields[0].as_slice()) {
        Some(s) => s,
        None => {
            return None;
        },
    };
    let rule_name = match bytes_to_string(fields[2].as_slice()) {
        Some(s) => s,
        None => {
            return None;
        },
    };
    let rule = match bytes_to_string(fields[3].as_slice()) {
        Some(s) => s,
        None => {
            return None;
        },
    };
    let when = match bytes_to_string(fields[4].as_slice()) {
        Some(s) => s,
        None => {
            return None;
        },
    };
    let name = match bytes_to_string(fields[5].as_slice()) {
        Some(s) => s,
        None => {
            return None;
        },
    };
    let value = match bytes_to_string(fields[6].as_slice()) {
        Some(s) => s,
        None => {
            return None;
        },
    };
    proof {
        lemma_numeric_field_valid_utf8(fields@[1]@);
        assert(is_row_line(line@));
    }
    Some(Row { id, iteration, rule_name, rule, when, name, value })
}

/// Decodes every well-formed line of `bytes`, in file order.
pub fn parse_rows(bytes: &[u8]) -> (r: Vec<Row>)
    ensures
        r.deep_view() == rows_of(bytes@),
{
    let lines = split_bytes(bytes, NEWLINE);
    let ghost all = split_on(bytes@, NEWLINE);
    let mut out: Vec<Row> = Vec::new();
    let mut i: usize = 0;
    while i < lines.len()
        invariant
            0 <= i <= lines@.len(),
            lines.deep_view() == all,
            out.deep_view() == rows_of_lines(all.take(i as int)),
        decreases lines@.len() - i,
    {
        proof {
            assert(all.take(i + 1).drop_last() =~= all.take(i as int));
            assert(all.take(i + 1).last() == all[i as int]);
            assert(lines@[i as int]@ =~= lines.deep_view()[i as int]);
        }
        match parse_row_line(lines[i].as_slice()) {
            Some(row) => {
                let ghost prev = out.deep_view();
                out.push(row);
                proof {
                    assert(out.deep_view() =~~= prev.push(row@));
                }
            },
            None => {},
        }
        i = i + 1;
    }
    proof {
        assert(all.take(all.len() as int) == all);
    }
    out
}

/// The character a decimal digit prints as.
pub open spec fn digit_char(d: int) -> char {
    ((48 + d) as u8) as char
}

/// The decimal representation of a number, most significant digit first.
pub open spec fn u64_dec_chars(n: int) -> Seq<char>
    decreases n,
{
    if n <= 9 {
        seq![digit_char(n)]
    } else {
        u64_dec_chars(n / 10).push(digit_char(n % 10))
    }
}

/// Prints a number in decimal.
pub fn u64_to_string(n: u64) -> (r: String)
    ensures
        r@ == u64_dec_chars(n as int),
    decreases n,
{
    if n <= 9 {
        let mut s = String::new();
        s.push((48 + n as u8) as char);
        s
    } else {
        let mut s = u64_to_string(n / 10);
        s.push((48 + (n % 10) as u8) as char);
        s
    }
}

/// The log line a record prints as: its seven fields, comma separated.
pub open spec fn row_line_chars(r: RowModel) -> Seq<char> {
    r.id + seq![','] + u64_dec_chars(r.iteration as int) + seq![','] + r.rule_name + seq![',']
        + r.rule + seq![','] + r.when + seq![','] + r.name + seq![','] + r.value
}

/// Formats one record as a log line, without the line terminator.
pub fn row_line(row: &Row) -> (r: String)
    ensures
        r@ == row_line_chars(row@),
{
    let mut s = String::new();
    vstd::string::StringExecFns::append(&mut s, row.id.as_str());
    s.push(',');
    let it = u64_to_string(row.iteration);
    vstd::string::StringExecFns::append(&mut s, it.as_str());
    s.push(',');
    vstd::string::StringExecFns::append(&mut s, row.rule_name.as_str());
    s.push(',');
    vstd::string::StringExecFns::append(&mut s, row.rule.as_str());
    s.push(',');
    vstd::string::StringExecFns::append(&mut s, row.when.as_str());
    s.push(',');
    vstd::string::StringExecFns::append(&mut s, row.name.as_str());
    s.push(',');
    vstd::string::StringExecFns::append(&mut s, row.value.as_str());
    proof {
        assert(s@ =~= row_line_chars(row@));
    }
    s
}

/// The header line that names the schema's seven fields.
pub fn header_line() -> (r: String)
    ensures
        r@ == "id,iteration,rule_name,rule,when,name,value"@,
{
    "id,iteration,rule_name,rule,when,name,value".to_owned()
}

/// A malformed line contributes nothing: the records of a line sequence
/// with one malformed line are exactly the records with that line
/// removed, in the same order.  Skipping such a line therefore leaves no
/// gap and makes no duplicate among the records that are kept.
pub proof fn lemma_malformed_line_skipped(a: Seq<Seq<u8>>, bad: Seq<u8>, b: Seq<Seq<u8>>)
    requires
        !is_row_line(bad),
    ensures
        rows_of_lines(a + seq![bad] + b) == rows_of_lines(a + b),
    decreases b.len(),
{
    if b.len() == 0 {
        assert(a + seq![bad] + b =~= a.push(bad));
        assert(a + b =~= a);
        assert(a.push(bad).drop_last() =~= a);
    } else {
        lemma_malformed_line_skipped(a, bad, b.drop_last());
        assert((a + seq![bad] + b).drop_last() =~= a + seq![bad] + b.drop_last());
        assert((a + b).drop_last() =~= a + b.drop_last());
        assert((a + seq![bad] + b).last() == b.last());
        assert((a + b).last() == b.last());
    }
}

/// The decimal print of a nonnegative number is made of digit
/// characters whose byte values read back as the number.
proof fn lemma_dec_chars_digits(n: int)
    requires
        n >= 0,
    ensures
        ({
            let c = u64_dec_chars(n);
            &&& c.len() >= 1
            &&& vstd::utf8::is_ascii_chars(c)
            &&& crate::decode::all_digits(Seq::new(c.len(), |i: int| c[i] as u8))
            &&& crate::decode::digits_val(Seq::new(c.len(), |i: int| c[i] as u8)) == n
        }),
    decreases n,
{
    reveal_with_fuel(crate::decode::digits_val, 2);
    let c = u64_dec_chars(n);
    let b = Seq::new(c.len(), |i: int| c[i] as u8);
    if n <= 9 {
        assert(c =~= seq![digit_char(n)]);
        assert(b =~= seq![(48 + n) as u8]);
        assert(b.drop_last() =~= Seq::<u8>::empty());
        assert(crate::decode::digits_val(b) == n);
        assert(crate::decode::is_digit(b[0]));
        assert('\0' <= c[0] <= '\u{7f}');
        assert(vstd::utf8::is_ascii_chars(c));
    } else {
        lemma_dec_chars_digits(n / 10);
        let cr = u64_dec_chars(n / 10);
        let br = Seq::new(cr.len(), |i: int| cr[i] as u8);
        assert(c == cr.push(digit_char(n % 10)));
        assert(b.drop_last() =~= br);
        assert(b.last() == (48 + n % 10) as u8);
        assert(crate::decode::digits_val(b) == crate::decode::digits_val(br) * 10 + (b.last()
            - 48));
        assert(crate::decode::digits_val(br) * 10 + n % 10 == n) by (nonlinear_arith)
            requires
                crate::decode::digits_val(br) == n / 10,
                n >= 0,
        ;
        assert forall|j: int| 0 <= j < b.len() implies crate::decode::is_digit(#[trigger] b[j]) by {
            if j < b.len() - 1 {
                assert(b[j] == br[j]);
                assert(crate::decode::is_digit(br[j]));
            } else {
                assert(b[j] == (48 + n % 10) as u8);
            }
        }
        assert forall|j: int| 0 <= j < c.len() implies '\0' <= #[trigger] c[j] <= '\u{7f}' by {
            if j < c.len() - 1 {
                assert(c[j] == cr[j]);
                assert('\0' <= cr[j] <= '\u{7f}');
            } else {
                assert(c[j] == digit_char(n % 10));
            }
        }
        assert(vstd::utf8::is_ascii_chars(c));
    }
}

/// A printed number reads back as itself: the bytes of `u64_to_string`'s
/// result always parse as the number that was printed.  In particular
/// the iteration field of a formatted log line is parsed back exactly.
pub proof fn lemma_number_round_trip(n: u64)
    ensures
        crate::decode::parse_u64_spec(vstd::utf8::encode_utf8(u64_dec_chars(n as int))) == Some(n),
{
    lemma_dec_chars_digits(n as int);
    let c = u64_dec_chars(n as int);
    let b = vstd::utf8::encode_utf8(c);
    vstd::utf8::is_ascii_chars_encode_utf8(c);
    assert(b =~= Seq::new(c.len(), |i: int| c[i] as u8));
    assert(b[0] != crate::decode::PLUS);
    assert(crate::decode::parse_u64_spec(b) == Some(n));
}

/// Encoding distributes over concatenation.
proof fn lemma_encode_concat(a: Seq<char>, b: Seq<char>)
    ensures
        vstd::utf8::encode_utf8(a + b) == vstd::utf8::encode_utf8(a) + vstd::utf8::encode_utf8(b),
    decreases a.len(),
{
    if a.len() == 0 {
        assert(a + b =~= b);
        assert(vstd::utf8::encode_utf8(a) + vstd::utf8::encode_utf8(b) =~= vstd::utf8::encode_utf8(
            b,
        ));
    } else {
        lemma_encode_concat(a.drop_first(), b);
        assert((a + b).drop_first() =~= a.drop_first() + b);
        assert((a + b)[0] == a[0]);
        assert(vstd::utf8::encode_scalar(a[0] as u32) + (vstd::utf8::encode_utf8(a.drop_first())
            + vstd::utf8::encode_utf8(b)) =~= (vstd::utf8::encode_scalar(a[0] as u32)
            + vstd::utf8::encode_utf8(a.drop_first())) + vstd::utf8::encode_utf8(b));
    }
}

/// An ASCII byte appears in a character sequence's encoding only where
/// the sequence holds that very character: multi-byte encodings use only
/// bytes at 0x80 and above.
proof fn lemma_encode_no_ascii_byte(s: Seq<char>, v: u8)
    requires
        v < 0x80,
        forall|i: int| 0 <= i < s.len() ==> (#[trigger] s[i]) as u32 != v as u32,
    ensures
        forall|j: int|
            0 <= j < vstd::utf8::encode_utf8(s).len() ==> #[trigger] vstd::utf8::encode_utf8(
                s,
            )[j] != v,
    decreases s.len(),
{
    if s.len() > 0 {
        lemma_encode_no_ascii_byte(s.drop_first(), v);
        let c = s[0] as u32;
        vstd::utf8::char_is_scalar(s[0]);
        let sc = vstd::utf8::encode_scalar(c);
        assert forall|j: int| 0 <= j < sc.len() implies #[trigger] sc[j] != v by {
            if vstd::utf8::has_width_1_encoding(c) {
                assert(vstd::utf8::leading_byte_width_1(c) != v) by (bit_vector)
                    requires
                        c <= 0x7f && v < 0x80 && c != v as u32,
                ;
            } else {
                assert(vstd::utf8::leading_byte_width_2(c) >= 0x80) by (bit_vector);
                assert(vstd::utf8::leading_byte_width_3(c) >= 0x80) by (bit_vector);
                assert(vstd::utf8::leading_byte_width_4(c) >= 0x80) by (bit_vector);
                assert(vstd::utf8::last_continuation_byte(c) >= 0x80) by (bit_vector);
                assert(vstd::utf8::second_last_continuation_byte(c) >= 0x80) by (bit_vector);
                assert(vstd::utf8::third_last_continuation_byte(c) >= 0x80) by (bit_vector);
            }
        }
        let rest = vstd::utf8::encode_utf8(s.drop_first());
        assert(vstd::utf8::encode_utf8(s) == sc + rest);
        assert forall|j: int|
            0 <= j < vstd::utf8::encode_utf8(s).len() implies #[trigger] vstd::utf8::encode_utf8(
            s,
        )[j] != v by {
            if j < sc.len() {
                assert(vstd::utf8::encode_utf8(s)[j] == sc[j]);
            } else {
                assert(vstd::utf8::encode_utf8(s)[j] == rest[j - sc.len()]);
            }
        }
    }
}

/// A text field is safe in a log line when it holds neither the field
/// separator nor a carriage return.
pub open spec fn field_safe(s: Seq<char>) -> bool {
    forall|i: int|
        0 <= i < s.len() ==> (#[trigger] s[i]) as u32 != 44 && s[i] as u32 != 13
}

/// No byte of the sequence is the field separator.
spec fn comma_free_bytes(b: Seq<u8>) -> bool {
    forall|j: int| 0 <= j < b.len() ==> #[trigger] b[j] != COMMA
}

/// The comma character encodes as the comma byte.
proof fn lemma_comma_encoding()
    ensures
        vstd::utf8::encode_utf8(seq![',']) == seq![COMMA],
{
    let cm = seq![','];
    vstd::utf8::char_is_scalar(',');
    assert(',' as u32 == 44);
    assert(cm.drop_first() =~= Seq::<char>::empty());
    assert(vstd::utf8::leading_byte_width_1(44u32) == 44u8) by (bit_vector);
    reveal_with_fuel(vstd::utf8::encode_utf8, 2);
    assert(vstd::utf8::has_width_1_encoding(44u32));
    assert(vstd::utf8::encode_scalar(44u32) =~= seq![44u8]);
    assert(cm[0] == ',');
    assert(vstd::utf8::encode_utf8(cm) =~= seq![COMMA]);
}

/// Encoding one comma-joined pair yields the encoded halves joined by
/// the comma byte.
proof fn lemma_join_pair(a: Seq<char>, b: Seq<char>)
    ensures
        vstd::utf8::encode_utf8(a + seq![','] + b) == vstd::utf8::encode_utf8(a) + seq![COMMA]
            + vstd::utf8::encode_utf8(b),
{
    let cm = seq![','];
    lemma_comma_encoding();
    lemma_encode_concat(a, cm);
    lemma_encode_concat(a + cm, b);
    assert(vstd::utf8::encode_utf8(a) + vstd::utf8::encode_utf8(cm) + vstd::utf8::encode_utf8(b)
        =~= vstd::utf8::encode_utf8(a) + seq![COMMA] + vstd::utf8::encode_utf8(b));
}

/// Splitting seven comma-free pieces joined by comma bytes recovers
/// exactly the seven pieces.
proof fn lemma_split_seven(
    b1: Seq<u8>,
    b2: Seq<u8>,
    b3: Seq<u8>,
    b4: Seq<u8>,
    b5: Seq<u8>,
    b6: Seq<u8>,
    b7: Seq<u8>,
)
    requires
        comma_free_bytes(b1),
        comma_free_bytes(b2),
        comma_free_bytes(b3),
        comma_free_bytes(b4),
        comma_free_bytes(b5),
        comma_free_bytes(b6),
        comma_free_bytes(b7),
    ensures
        crate::decode::split_on(
            b1 + seq![COMMA] + (b2 + seq![COMMA] + (b3 + seq![COMMA] + (b4 + seq![COMMA] + (b5
                + seq![COMMA] + (b6 + seq![COMMA] + b7))))),
            COMMA,
        ) == seq![b1, b2, b3, b4, b5, b6, b7],
{
    crate::decode::lemma_split_on_no_sep(b7, COMMA);
    crate::decode::lemma_split_on_concat(b6, b7, COMMA);
    crate::decode::lemma_split_on_no_sep(b6, COMMA);
    crate::decode::lemma_split_on_concat(b5, b6 + seq![COMMA] + b7, COMMA);
    crate::decode::lemma_split_on_no_sep(b5, COMMA);
    crate::decode::lemma_split_on_concat(b4, b5 + seq![COMMA] + (b6 + seq![COMMA] + b7), COMMA);
    crate::decode::lemma_split_on_no_sep(b4, COMMA);
    crate::decode::lemma_split_on_concat(
        b3,
        b4 + seq![COMMA] + (b5 + seq![COMMA] + (b6 + seq![COMMA] + b7)),
        COMMA,
    );
    crate::decode::lemma_split_on_no_sep(b3, COMMA);
    crate::decode::lemma_split_on_concat(
        b2,
        b3 + seq![COMMA] + (b4 + seq![COMMA] + (b5 + seq![COMMA] + (b6 + seq![COMMA] + b7))),
        COMMA,
    );
    crate::decode::lemma_split_on_no_sep(b2, COMMA);
    crate::decode::lemma_split_on_concat(
        b1,
        b2 + seq![COMMA] + (b3 + seq![COMMA] + (b4 + seq![COMMA] + (b5 + seq![COMMA] + (b6
            + seq![COMMA] + b7)))),
        COMMA,
    );
    crate::decode::lemma_split_on_no_sep(b1, COMMA);
    assert(b6 + seq![COMMA] + b7 =~= b6 + (seq![COMMA] + b7));
    assert(b5 + seq![COMMA] + (b6 + seq![COMMA] + b7) =~= b5 + seq![COMMA] + (b6 + seq![COMMA])
        + b7);
    assert(crate::decode::split_on(
        b1 + seq![COMMA] + (b2 + seq![COMMA] + (b3 + seq![COMMA] + (b4 + seq![COMMA] + (b5
            + seq![COMMA] + (b6 + seq![COMMA] + b7))))),
        COMMA,
    ) =~~= seq![b1, b2, b3, b4, b5, b6, b7]);
}

/// What the line formatter writes, the line parser reads back: a
/// formatted record whose text fields hold no field separator and no
/// carriage return is one well-formed line that parses to the very same
/// record.
#[verifier::rlimit(100)]
pub proof fn lemma_row_line_round_trip(r: RowModel)
    requires
        field_safe(r.id),
        field_safe(r.rule_name),
        field_safe(r.rule),
        field_safe(r.when),
        field_safe(r.name),
        field_safe(r.value),
    ensures
        is_row_line(vstd::utf8::encode_utf8(row_line_chars(r))),
        row_of_line(vstd::utf8::encode_utf8(row_line_chars(r))) == r,
{
    let c1 = r.id;
    let c2 = u64_dec_chars(r.iteration as int);
    let c3 = r.rule_name;
    let c4 = r.rule;
    let c5 = r.when;
    let c6 = r.name;
    let c7 = r.value;
    let b1 = vstd::utf8::encode_utf8(c1);
    let b2 = vstd::utf8::encode_utf8(c2);
    let b3 = vstd::utf8::encode_utf8(c3);
    let b4 = vstd::utf8::encode_utf8(c4);
    let b5 = vstd::utf8::encode_utf8(c5);
    let b6 = vstd::utf8::encode_utf8(c6);
    let b7 = vstd::utf8::encode_utf8(c7);
    let lb = vstd::utf8::encode_utf8(row_line_chars(r));

    // the encoded line is the encoded fields joined by comma bytes
    let t6 = c6 + seq![','] + c7;
    let t5 = c5 + seq![','] + t6;
    let t4 = c4 + seq![','] + t5;
    let t3 = c3 + seq![','] + t4;
    let t2 = c2 + seq![','] + t3;
    let t1 = c1 + seq![','] + t2;
    assert(row_line_chars(r) =~= t1);
    lemma_join_pair(c6, c7);
    lemma_join_pair(c5, t6);
    lemma_join_pair(c4, t5);
    lemma_join_pair(c3, t4);
    lemma_join_pair(c2, t3);
    lemma_join_pair(c1, t2);
    let flat = b1 + seq![COMMA] + (b2 + seq![COMMA] + (b3 + seq![COMMA] + (b4 + seq![COMMA] + (b5
        + seq![COMMA] + (b6 + seq![COMMA] + b7)))));
    assert(lb == flat);

    // none of the field bytes is a comma or a carriage return
    lemma_encode_no_ascii_byte(c1, COMMA);
    lemma_encode_no_ascii_byte(c3, COMMA);
    lemma_encode_no_ascii_byte(c4, COMMA);
    lemma_encode_no_ascii_byte(c5, COMMA);
    lemma_encode_no_ascii_byte(c6, COMMA);
    lemma_encode_no_ascii_byte(c7, COMMA);
    lemma_encode_no_ascii_byte(c7, CARRIAGE_RETURN);
    lemma_dec_chars_digits(r.iteration as int);
    vstd::utf8::is_ascii_chars_encode_utf8(c2);
    assert(b2 =~= Seq::new(c2.len(), |i: int| c2[i] as u8));
    assert forall|j: int| 0 <= j < b2.len() implies #[trigger] b2[j] != COMMA && b2[j]
        != CARRIAGE_RETURN by {
        assert(crate::decode::is_digit(Seq::new(c2.len(), |i: int| c2[i] as u8)[j]));
    }

    // the line carries no trailing carriage return to trim
    assert(lb.len() > 0);
    if c7.len() == 0 {
        assert(b7 =~= Seq::<u8>::empty());
        assert(lb.last() == COMMA);
    } else {
        assert(b7.len() > 0);
        assert(lb.last() == b7.last());
    }
    assert(trim_cr(lb) == lb);

    // splitting at the commas recovers exactly the seven fields
    lemma_split_seven(b1, b2, b3, b4, b5, b6, b7);
    let f = line_fields(lb);
    assert(f == seq![b1, b2, b3, b4, b5, b6, b7]);

    // every field decodes, and the iteration field reads back
    vstd::utf8::encode_utf8_valid_utf8(c1);
    vstd::utf8::encode_utf8_valid_utf8(c2);
    vstd::utf8::encode_utf8_valid_utf8(c3);
    vstd::utf8::encode_utf8_valid_utf8(c4);
    vstd::utf8::encode_utf8_valid_utf8(c5);
    vstd::utf8::encode_utf8_valid_utf8(c6);
    vstd::utf8::encode_utf8_valid_utf8(c7);
    lemma_number_round_trip(r.iteration);
    assert(is_row_line(lb));
    vstd::utf8::encode_utf8_decode_utf8(c1);
    vstd::utf8::encode_utf8_decode_utf8(c3);
    vstd::utf8::encode_utf8_decode_utf8(c4);
    vstd::utf8::encode_utf8_decode_utf8(c5);
    vstd::utf8::encode_utf8_decode_utf8(c6);
    vstd::utf8::encode_utf8_decode_utf8(c7);
    assert(row_of_line(lb) == r);
}

} // verus!
