//! Byte-level decoding primitives shared by the row parser and the
//! snapshot reader: splitting a byte sequence at a separator, reading a
//! decimal integer, and turning field bytes into owned strings.
use vstd::prelude::*;

verus! {

pub const NEWLINE: u8 = 10;
pub const CARRIAGE_RETURN: u8 = 13;
pub const COMMA: u8 = 44;
pub const PLUS: u8 = 43;

/// The pieces of `s` between occurrences of `sep`, in order.  There is
/// always one piece more than there are separators; an empty input has
/// one empty piece.
pub open spec fn split_on(s: Seq<u8>, sep: u8) -> Seq<Seq<u8>>
    decreases s.len(),
{
    if s.len() == 0 {
        seq![Seq::<u8>::empty()]
    } else if s.last() == sep {
        split_on(s.drop_last(), sep).push(Seq::<u8>::empty())
    } else {
        let p = split_on(s.drop_last(), sep);
        p.update(p.len() - 1, p.last().push(s.last()))
    }
}

pub proof fn lemma_split_on_len(s: Seq<u8>, sep: u8)
    ensures
        1 <= split_on(s, sep).len() <= s.len() + 1,
    decreases s.len(),
{
    if s.len() > 0 {
        lemma_split_on_len(s.drop_last(), sep);
    }
}

/// Splits a byte slice at every occurrence of `sep`.
pub fn split_bytes(s: &[u8], sep: u8) -> (r: Vec<Vec<u8>>)
    ensures
        r.deep_view() == split_on(s@, sep),
{
    let mut done: Vec<Vec<u8>> = Vec::new();
    let mut cur: Vec<u8> = Vec::new();
    let mut j: usize = 0;
    while j < s.len()
        invariant
            0 <= j <= s@.len(),
            done.deep_view().push(cur@) == split_on(s@.take(j as int), sep),
        decreases s@.len() - j,
    {
        proof {
            assert(s@.take(j + 1).drop_last() == s@.take(j as int));
            assert(s@.take(j + 1).last() == s@[j as int]);
        }
        if s[j] == sep {
            let ghost prev = done.deep_view();
            let ghost prev_cur = cur@;
            done.push(cur);
            cur = Vec::new();
            proof {
                assert(done.deep_view() =~~= prev.push(prev_cur));
                assert(done.deep_view().push(cur@) =~~= split_on(s@.take(j + 1), sep));
            }
        } else {
            cur.push(s[j]);
            proof {
                let p = split_on(s@.take(j as int), sep);
                assert(p.update(p.len() - 1, p.last().push(s@[j as int])) =~= done.deep_view().push(
                    cur@,
                ));
            }
        }
        j = j + 1;
    }
    proof {
        assert(s@.take(s@.len() as int) == s@);
    }
    let ghost prev = done.deep_view();
    let ghost prev_cur = cur@;
    done.push(cur);
    proof {
        assert(done.deep_view() =~~= prev.push(prev_cur));
    }
    done
}

pub open spec fn is_digit(b: u8) -> bool {
    48 <= b <= 57
}

pub open spec fn all_digits(s: Seq<u8>) -> bool {
    forall|i: int| 0 <= i < s.len() ==> is_digit(#[trigger] s[i])
}

/// Value of a sequence of ASCII digits read as a decimal number.
pub open spec fn digits_val(s: Seq<u8>) -> int
    decreases s.len(),
{
    if s.len() == 0 {
        0
    } else {
        digits_val(s.drop_last()) * 10 + (s.last() - 48)
    }
}

pub proof fn lemma_digits_val_nonneg(s: Seq<u8>)
    requires
        all_digits(s),
    ensures
        digits_val(s) >= 0,
    decreases s.len(),
{
    if s.len() > 0 {
        lemma_digits_val_nonneg(s.drop_last());
        assert(digits_val(s.drop_last()) * 10 >= 0) by (nonlinear_arith)
            requires
                digits_val(s.drop_last()) >= 0,
        ;
    }
}

/// What `str::parse::<u64>` accepts: an optional leading plus sign, then
/// one or more decimal digits whose value fits in a `u64`.
pub open spec fn parse_u64_spec(s: Seq<u8>) -> Option<u64> {
    let d = if s.len() > 0 && s[0] == PLUS {
        s.drop_first()
    } else {
        s
    };
    if d.len() > 0 && all_digits(d) && digits_val(d) <= u64::MAX {
        Some(digits_val(d) as u64)
    } else {
        None
    }
}

/// Reads a decimal `u64` from field bytes.
pub fn parse_u64(s: &[u8]) -> (r: Option<u64>)
    ensures
        r == parse_u64_spec(s@),
{
    let skip: usize = if s.len() > 0 && s[0] == PLUS {
        1
    } else {
        0
    };
    let ghost d = if s@.len() > 0 && s@[0] == PLUS {
        s@.drop_first()
    } else {
        s@
    };
    proof {
        assert(d =~= s@.subrange(skip as int, s@.len() as int));
    }
    if s.len() == skip {
        return None;
    }
    let mut val: u128 = 0;
    let mut over: bool = false;
    let mut j: usize = skip;
    while j < s.len()
        invariant
            skip <= j <= s@.len(),
            skip == if s@.len() > 0 && s@[0] == PLUS {
                1int
            } else {
                0int
            },
            d == s@.subrange(skip as int, s@.len() as int),
            all_digits(d.take(j - skip)),
            !over ==> val == digits_val(d.take(j - skip)) && val <= u64::MAX,
            over ==> digits_val(d.take(j - skip)) > u64::MAX,
        decreases s@.len() - j,
    {
        let b = s[j];
        if b < 48 || b > 57 {
            proof {
                assert(d[j - skip] == s@[j as int]);
                assert(!all_digits(d));
                assert(parse_u64_spec(s@) is None);
            }
            return None;
        }
        proof {
            let t = d.take(j - skip + 1);
            assert(t.drop_last() == d.take(j - skip));
            assert(t.last() == d[j - skip]);
            assert(d[j - skip] == s@[j as int]);
        }
        if over {
            proof {
                lemma_digits_val_nonneg(d.take(j - skip));
                assert(digits_val(d.take(j - skip)) * 10 > u64::MAX) by (nonlinear_arith)
                    requires
                        digits_val(d.take(j - skip)) > u64::MAX,
                ;
            }
        } else {
            let dig = (b - 48) as u128;
            let next = val * 10 + dig;
            if next > u64::MAX as u128 {
                over = true;
            } else {
                val = next;
            }
        }
        j = j + 1;
    }
    proof {
        assert(d.take(s@.len() - skip) == d);
    }
    if over {
        None
    } else {
        Some(val as u64)
    }
}

/// Relies on `String::from_utf8`: it returns the decoded string exactly
/// when the bytes are valid UTF-8, and an error otherwise.
#[verifier::external_body]
pub fn bytes_to_string(b: &[u8]) -> (r: Option<String>)
    ensures
        r is Some <==> vstd::utf8::valid_utf8(b@),
        r matches Some(s) ==> s@ == vstd::utf8::decode_utf8(b@),
{
    String::from_utf8(b.to_vec()).ok()
}

/// Relies on `String::push`: it appends the given character.
pub assume_specification[ String::push ](s: &mut String, ch: char)
    ensures
        final(s)@ == old(s)@.push(ch),
;

/// A piece without the separator splits to itself alone.
pub proof fn lemma_split_on_no_sep(s: Seq<u8>, sep: u8)
    requires
        forall|i: int| 0 <= i < s.len() ==> s[i] != sep,
    ensures
        split_on(s, sep) == seq![s],
    decreases s.len(),
{
    if s.len() == 0 {
        assert(seq![Seq::<u8>::empty()] =~~= seq![s]);
    } else {
        lemma_split_on_no_sep(s.drop_last(), sep);
        assert(s.last() != sep);
        assert(s.drop_last().push(s.last()) =~= s);
        assert(split_on(s, sep) =~~= seq![s]);
    }
}

/// Splitting cuts exactly at a separator: the pieces of the whole are
/// the pieces of what stands before it followed by the pieces of what
/// stands after it.
pub proof fn lemma_split_on_concat(a: Seq<u8>, b: Seq<u8>, sep: u8)
    ensures
        split_on(a + seq![sep] + b, sep) == split_on(a, sep) + split_on(b, sep),
    decreases b.len(),
{
    lemma_split_on_len(a, sep);
    if b.len() == 0 {
        assert((a + seq![sep] + b).drop_last() =~= a);
        assert((a + seq![sep] + b).last() == sep);
        assert(split_on(a + seq![sep] + b, sep) =~~= split_on(a, sep) + split_on(b, sep));
    } else {
        lemma_split_on_concat(a, b.drop_last(), sep);
        lemma_split_on_len(b.drop_last(), sep);
        let whole = a + seq![sep] + b;
        assert(whole.drop_last() =~= a + seq![sep] + b.drop_last());
        assert(whole.last() == b.last());
        if b.last() == sep {
            assert(split_on(whole, sep) =~~= split_on(a, sep) + split_on(b, sep));
        } else {
            let p = split_on(whole.drop_last(), sep);
            let q = split_on(b.drop_last(), sep);
            assert(p == split_on(a, sep) + q);
            assert(p.last() == q.last());
            assert(p.update(p.len() - 1, p.last().push(b.last())) =~~= split_on(a, sep)
                + q.update(q.len() - 1, q.last().push(b.last())));
        }
    }
}

} // verus!