//! The line-framed wire format: a count of fields, then each field length-
//! prefixed, every line ended by CRLF.
//!
//! ```text
//! *<n>\r\n
//! $<len1>\r\n<field1>\r\n
//! ...
//! $<lenN>\r\n<fieldN>\r\n
//! ```

use crate::bytes::bytes_to_string;
use crate::error::TsaError;
use vstd::prelude::*;
use vstd::slice::{slice_subrange, slice_to_vec};
use vstd::utf8::{decode_utf8, encode_utf8, valid_utf8};

verus! {

/// The line terminator.
pub open spec fn crlf() -> Seq<u8> {
    seq![13u8, 10u8]
}

/// The shortest decimal form of a number, most significant digit first.
pub open spec fn dec_digits(n: nat) -> Seq<u8>
    decreases n,
{
    if n < 10 {
        seq![(48 + n) as u8]
    } else {
        dec_digits(n / 10).push((48 + n % 10) as u8)
    }
}

/// One length-prefixed field with its terminators.
pub open spec fn field_frame(f: Seq<u8>) -> Seq<u8> {
    seq![36u8] + dec_digits(f.len()) + crlf() + f + crlf()
}

/// The fields of a frame, in order.
pub open spec fn fields_frame(fs: Seq<Seq<u8>>) -> Seq<u8>
    decreases fs.len(),
{
    if fs.len() == 0 {
        Seq::empty()
    } else {
        field_frame(fs[0]) + fields_frame(fs.drop_first())
    }
}

/// A whole frame: the field count, then the fields.
pub open spec fn resp_frame(fs: Seq<Seq<u8>>) -> Seq<u8> {
    seq![42u8] + dec_digits(fs.len()) + crlf() + fields_frame(fs)
}

/// One more field at the end extends the fields' frame at its end.
pub proof fn lemma_fields_frame_snoc(fs: Seq<Seq<u8>>, f: Seq<u8>)
    ensures
        fields_frame(fs.push(f)) =~= fields_frame(fs) + field_frame(f),
    decreases fs.len(),
{
    if fs.len() == 0 {
        assert(fs.push(f)[0] == f);
        assert(fs.push(f).drop_first() =~= Seq::<Seq<u8>>::empty());
        assert(fields_frame(fs.push(f)) == field_frame(f) + fields_frame(
            fs.push(f).drop_first(),
        ));
    } else {
        assert(fs.push(f)[0] == fs[0]);
        assert(fs.push(f).drop_first() =~= fs.drop_first().push(f));
        lemma_fields_frame_snoc(fs.drop_first(), f);
    }
}

/// Every byte of a decimal form is a digit.
pub proof fn lemma_dec_digits_are_digits(n: nat)
    ensures
        dec_digits(n).len() >= 1,
        forall|t: int| 0 <= t < dec_digits(n).len() ==> is_digit(#[trigger] dec_digits(n)[t]),
    decreases n,
{
    if n >= 10 {
        lemma_dec_digits_are_digits(n / 10);
    }
}

/// Whether the byte is an ASCII digit.
pub open spec fn is_digit(b: u8) -> bool {
    48 <= b <= 57
}

/// Appends the shortest decimal form of `n`.
pub fn push_dec(buf: &mut Vec<u8>, n: usize)
    ensures
        final(buf)@ == old(buf)@ + dec_digits(n as nat),
    decreases n,
{
    if n >= 10 {
        push_dec(buf, n / 10);
        buf.push((48 + (n % 10) as u8) as u8);
    } else {
        buf.push((48 + n as u8) as u8);
    }
}

/// Builds the frame for a command and its arguments as one line-framed
/// string: the field count, then each field length-prefixed in UTF-8
/// bytes.
pub fn serialize(command: &str, args: &[&str]) -> (r: String)
    requires
        args@.len() < usize::MAX,
    ensures
        encode_utf8(r@) == resp_frame(
            seq![encode_utf8(command@)] + args@.map_values(|a: &str| encode_utf8(a@)),
        ),
{
    let ghost fields = seq![encode_utf8(command@)] + args@.map_values(|a: &str| encode_utf8(a@));
    let total_parts = 1 + args.len();
    let mut buf: Vec<u8> = Vec::new();
    buf.push(42);
    push_dec(&mut buf, total_parts);
    buf.push(13);
    buf.push(10);
    proof {
        assert(fields.len() == total_parts);
        assert(buf@ =~= seq![42u8] + dec_digits(total_parts as nat) + crlf());
        assert(fields_frame(fields.take(0)) =~= Seq::<u8>::empty());
        assert(buf@ =~= seq![42u8] + dec_digits(fields.len()) + crlf() + fields_frame(
            fields.take(0),
        ));
    }
    push_field(&mut buf, command.as_bytes());
    proof {
        assert(fields.take(1) =~= fields.take(0).push(encode_utf8(command@)));
        lemma_fields_frame_snoc(fields.take(0), encode_utf8(command@));
        assert(buf@ =~= seq![42u8] + dec_digits(fields.len()) + crlf() + fields_frame(
            fields.take(1),
        ));
    }
    let n = args.len();
    let mut i: usize = 0;
    while i < n
        invariant
            n == args@.len(),
            0 <= i <= n,
            fields.len() == n + 1,
            fields == seq![encode_utf8(command@)] + args@.map_values(|a: &str| encode_utf8(a@)),
            buf@ == seq![42u8] + dec_digits(fields.len()) + crlf() + fields_frame(
                fields.take(i + 1),
            ),
        decreases n - i,
    {
        push_field(&mut buf, args[i].as_bytes());
        proof {
            assert(fields[i + 1] == encode_utf8(args@[i as int]@));
            assert(fields.take(i + 2) =~= fields.take(i + 1).push(fields[i + 1]));
            lemma_fields_frame_snoc(fields.take(i + 1), fields[i + 1]);
            assert(buf@ =~= seq![42u8] + dec_digits(fields.len()) + crlf() + fields_frame(
                fields.take(i + 2),
            ));
        }
        i += 1;
    }
    proof {
        assert(fields.take(n + 1) =~= fields);
        assert(buf@ == resp_frame(fields));
        assert forall|q: int| 0 <= q < fields.len() implies utf8_field(#[trigger] fields[q]) by {
            if q == 0 {
                assert(fields[0] == encode_utf8(command@));
                lemma_utf8_field(command@);
            } else {
                assert(fields[q] == encode_utf8(args@[q - 1]@));
                lemma_utf8_field(args@[q - 1]@);
            }
        }
        lemma_frame_valid_utf8(fields);
    }
    match bytes_to_string(buf) {
        Some(s) => {
            proof {
                vstd::utf8::decode_utf8_encode_utf8(resp_frame(fields));
            }
            s
        },
        None => {
            proof {
                assert(false);
            }
            String::new()
        },
    }
}

/// Appends one length-prefixed field with its terminators.
fn push_field(buf: &mut Vec<u8>, f: &[u8])
    ensures
        final(buf)@ == old(buf)@ + field_frame(f@),
{
    buf.push(36);
    push_dec(buf, f.len());
    buf.push(13);
    buf.push(10);
    let mut fv = slice_to_vec(f);
    buf.append(&mut fv);
    buf.push(13);
    buf.push(10);
    proof {
        assert(buf@ =~= old(buf)@ + field_frame(f@));
    }
}

/// Whether the bytes are some character sequence's UTF-8 encoding.
pub open spec fn utf8_field(f: Seq<u8>) -> bool {
    exists|cs: Seq<char>| f == encode_utf8(cs)
}

/// An encoding is a field.
pub proof fn lemma_utf8_field(cs: Seq<char>)
    ensures
        utf8_field(encode_utf8(cs)),
{
    assert(encode_utf8(cs) == encode_utf8(cs));
}

/// A whole frame is valid UTF-8 when each field is: the punctuation and
/// digits are ASCII.
pub proof fn lemma_frame_valid_utf8(fs: Seq<Seq<u8>>)
    requires
        forall|q: int| 0 <= q < fs.len() ==> utf8_field(#[trigger] fs[q]),
    ensures
        valid_utf8(resp_frame(fs)),
{
    broadcast use vstd::utf8::valid_utf8_concat;
    broadcast use vstd::utf8::encode_utf8_valid_utf8;

    lemma_ascii_valid(seq![42u8]);
    lemma_dec_valid(fs.len());
    lemma_ascii_valid(crlf());
    lemma_fields_valid(fs);
    assert(resp_frame(fs) == seq![42u8] + dec_digits(fs.len()) + crlf() + fields_frame(fs));
    assert(valid_utf8(seq![42u8] + dec_digits(fs.len())));
    assert(valid_utf8(seq![42u8] + dec_digits(fs.len()) + crlf()));
}

proof fn lemma_fields_valid(fs: Seq<Seq<u8>>)
    requires
        forall|q: int| 0 <= q < fs.len() ==> utf8_field(#[trigger] fs[q]),
    ensures
        valid_utf8(fields_frame(fs)),
    decreases fs.len(),
{
    broadcast use vstd::utf8::valid_utf8_concat;
    broadcast use vstd::utf8::encode_utf8_valid_utf8;

    if fs.len() == 0 {
        assert(valid_utf8(Seq::<u8>::empty()));
    } else {
        assert forall|q: int| 0 <= q < fs.drop_first().len() implies utf8_field(
            #[trigger] fs.drop_first()[q],
        ) by {
            assert(fs.drop_first()[q] == fs[q + 1]);
            assert(utf8_field(fs[q + 1]));
        }
        lemma_fields_valid(fs.drop_first());
        lemma_ascii_valid(seq![36u8]);
        lemma_dec_valid(fs[0].len());
        lemma_ascii_valid(crlf());
        let cs = choose|cs: Seq<char>| fs[0] == encode_utf8(cs);
        assert(valid_utf8(fs[0]));
        assert(valid_utf8(seq![36u8] + dec_digits(fs[0].len())));
        assert(valid_utf8(seq![36u8] + dec_digits(fs[0].len()) + crlf()));
        assert(valid_utf8(seq![36u8] + dec_digits(fs[0].len()) + crlf() + fs[0]));
        assert(valid_utf8(field_frame(fs[0])));
    }
}

/// An all-ASCII byte sequence is valid UTF-8.
proof fn lemma_ascii_valid(b: Seq<u8>)
    requires
        forall|t: int| 0 <= t < b.len() ==> (#[trigger] b[t]) < 128,
    ensures
        valid_utf8(b),
{
    let cs = Seq::new(b.len(), |t: int| b[t] as char);
    assert(vstd::utf8::is_ascii_chars(cs)) by {
        assert(forall|t: int| 0 <= t < cs.len() ==> (#[trigger] cs[t]) as u8 as char == cs[t]);
    }
    vstd::utf8::is_ascii_chars_encode_utf8(cs);
    assert(b =~= encode_utf8(cs));
    vstd::utf8::encode_utf8_valid_utf8(cs);
}

proof fn lemma_dec_valid(n: nat)
    ensures
        valid_utf8(dec_digits(n)),
{
    lemma_dec_digits_are_digits(n);
    lemma_ascii_valid(dec_digits(n));
}

/// The offset where the run of digits starting at `i` ends.
pub open spec fn digits_end(d: Seq<u8>, i: int) -> int
    decreases d.len() - i,
{
    if 0 <= i < d.len() && is_digit(d[i]) {
        digits_end(d, i + 1)
    } else {
        i
    }
}

/// The value of the digits `d[i..j)`, most significant first.
pub open spec fn dec_value(d: Seq<u8>, i: int, j: int) -> int
    decreases j - i,
{
    if j <= i {
        0
    } else {
        dec_value(d, i, j - 1) * 10 + (d[j - 1] - 48)
    }
}

/// A digit run ends exactly at its first non-digit.
pub proof fn lemma_digits_run(d: Seq<u8>, i: int, j: int)
    requires
        0 <= i <= j <= d.len(),
        forall|t: int| i <= t < j ==> is_digit(d[t]),
        j == d.len() || !is_digit(d[j]),
    ensures
        digits_end(d, i) == j,
    decreases j - i,
{
    if i < j {
        lemma_digits_run(d, i + 1, j);
    }
}

/// The value of a digit run is not negative, and shrinking the run from
/// the right never increases it.
pub proof fn lemma_dec_value_nonneg(d: Seq<u8>, i: int, j: int)
    requires
        forall|t: int| i <= t < j ==> is_digit(#[trigger] d[t]),
    ensures
        dec_value(d, i, j) >= 0,
        forall|j2: int| i <= j2 <= j ==> #[trigger] dec_value(d, i, j2) <= dec_value(d, i, j),
    decreases j - i,
{
    if j > i {
        lemma_dec_value_nonneg(d, i, j - 1);
        assert(dec_value(d, i, j) == dec_value(d, i, j - 1) * 10 + (d[j - 1] - 48));
        assert(dec_value(d, i, j - 1) * 10 >= dec_value(d, i, j - 1)) by (nonlinear_arith)
            requires
                dec_value(d, i, j - 1) >= 0,
        ;
    }
}

/// Whether a whole, well-formed element lies at offset `i`.
pub open spec fn elem_ok(d: Seq<u8>, i: int) -> bool {
    let e = digits_end(d, i + 1);
    let len = dec_value(d, i + 1, e);
    &&& 0 <= i < d.len()
    &&& d[i] == 36
    &&& e > i + 1
    &&& e + 2 <= d.len()
    &&& d[e] == 13
    &&& d[e + 1] == 10
    &&& e + 2 + len + 2 <= d.len()
    &&& d[e + 2 + len] == 13
    &&& d[e + 2 + len + 1] == 10
}

/// The field bytes of the element at offset `i`.
pub open spec fn elem_field(d: Seq<u8>, i: int) -> Seq<u8> {
    let e = digits_end(d, i + 1);
    d.subrange(e + 2, e + 2 + dec_value(d, i + 1, e))
}

/// The offset just past the element at offset `i`.
pub open spec fn elem_next(d: Seq<u8>, i: int) -> int {
    let e = digits_end(d, i + 1);
    e + 2 + dec_value(d, i + 1, e) + 2
}

/// The fields of `n` elements parsed from offset `i`, which must use up
/// the input exactly.
pub open spec fn elems_parse(d: Seq<u8>, i: int, n: nat) -> Option<Seq<Seq<u8>>>
    decreases n,
{
    if n == 0 {
        if i == d.len() {
            Some(Seq::empty())
        } else {
            None
        }
    } else if elem_ok(d, i) {
        match elems_parse(d, elem_next(d, i), (n - 1) as nat) {
            Some(rest) => Some(seq![elem_field(d, i)] + rest),
            None => None,
        }
    } else {
        None
    }
}

/// The fields of a whole frame, or `None` when the bytes do not form one.
pub open spec fn frame_parse(d: Seq<u8>) -> Option<Seq<Seq<u8>>> {
    let e = digits_end(d, 1);
    if d.len() >= 1 && d[0] == 42 && e > 1 && e + 2 <= d.len() && d[e] == 13 && d[e + 1] == 10 {
        elems_parse(d, e + 2, dec_value(d, 1, e) as nat)
    } else {
        None
    }
}

/// A parse of `n` elements consumes at least one byte each.
pub proof fn lemma_elems_parse_bound(d: Seq<u8>, i: int, n: nat)
    requires
        0 <= i,
        elems_parse(d, i, n) is Some,
    ensures
        i + n <= d.len(),
    decreases n,
{
    if n > 0 {
        let e = digits_end(d, i + 1);
        lemma_digits_end_in_range(d, i + 1);
        lemma_digits_end_digits(d, i + 1);
        lemma_dec_value_nonneg(d, i + 1, e);
        lemma_elems_parse_bound(d, elem_next(d, i), (n - 1) as nat);
    }
}

/// The end of a digit run lies between its start and the input's end.
pub proof fn lemma_digits_end_in_range(d: Seq<u8>, i: int)
    requires
        0 <= i <= d.len(),
    ensures
        i <= digits_end(d, i) <= d.len(),
    decreases d.len() - i,
{
    if i < d.len() && is_digit(d[i]) {
        lemma_digits_end_in_range(d, i + 1);
    }
}

/// Every byte before the end of a digit run is a digit.
pub proof fn lemma_digits_end_digits(d: Seq<u8>, i: int)
    requires
        0 <= i <= d.len(),
    ensures
        forall|t: int| i <= t < digits_end(d, i) ==> is_digit(#[trigger] d[t]),
        digits_end(d, i) < d.len() ==> !is_digit(d[digits_end(d, i)]),
    decreases d.len() - i,
{
    if i < d.len() && is_digit(d[i]) {
        lemma_digits_end_digits(d, i + 1);
    }
}

/// Whether the byte is an ASCII digit.
fn is_digit_exec(b: u8) -> (r: bool)
    ensures
        r == is_digit(b),
{
    48 <= b && b <= 57
}

/// Reads a run of at least one digit at offset `i` as a 64-bit value.
/// `None` when no digit lies at `i`, or the run's value does not fit.
fn parse_dec_u64(data: &[u8], i: usize) -> (r: Option<(u64, usize)>)
    requires
        i <= data@.len(),
    ensures
        match r {
            Option::Some(p) => {
                &&& p.1 == digits_end(data@, i as int)
                &&& i < p.1 <= data@.len()
                &&& p.0 as int == dec_value(data@, i as int, p.1 as int)
            },
            Option::None => digits_end(data@, i as int) == i || dec_value(
                data@,
                i as int,
                digits_end(data@, i as int),
            ) > u64::MAX,
        },
{
    let n = data.len();
    let mut j = i;
    let mut acc: u64 = 0;
    let mut overflow = false;
    while j < n && is_digit_exec(data[j])
        invariant
            i <= j <= n,
            n == data@.len(),
            digits_end(data@, i as int) == digits_end(data@, j as int),
            forall|t: int| i <= t < j ==> is_digit(#[trigger] data@[t]),
            !overflow ==> acc as int == dec_value(data@, i as int, j as int),
            overflow ==> dec_value(data@, i as int, j as int) > u64::MAX,
        decreases n - j,
    {
        let dgt = (data[j] - 48) as u64;
        proof {
            assert(digits_end(data@, j as int) == digits_end(data@, j as int + 1));
            assert(dec_value(data@, i as int, j as int + 1) == dec_value(
                data@,
                i as int,
                j as int,
            ) * 10 + dgt);
        }
        if overflow {
            proof {
                lemma_digits_end_digits(data@, i as int);
                assert(dec_value(data@, i as int, j as int) * 10 >= dec_value(
                    data@,
                    i as int,
                    j as int,
                )) by (nonlinear_arith)
                    requires
                        dec_value(data@, i as int, j as int) >= 0,
                ;
                lemma_dec_value_nonneg(data@, i as int, j as int);
            }
        } else if acc > (u64::MAX - dgt) / 10 {
            proof {
                assert(acc as int * 10 + dgt > u64::MAX) by (nonlinear_arith)
                    requires
                        acc as int > ((u64::MAX - dgt) as int) / 10,
                        0 <= dgt <= 9,
                        acc as int >= 0,
                ;
            }
            overflow = true;
        } else {
            acc = acc * 10 + dgt;
        }
        j += 1;
    }
    proof {
        assert(digits_end(data@, j as int) == j);
    }
    if j == i {
        return None;
    }
    if overflow {
        return None;
    }
    Some((acc, j))
}

/// Reads one element at offset `i`: its field bytes and the offset just
/// past it.  `None` exactly when no whole, well-formed element lies there.
fn parse_elem(data: &[u8], i: usize) -> (r: Option<(Vec<u8>, usize)>)
    requires
        i <= data@.len(),
    ensures
        match r {
            Option::Some(p) => {
                &&& elem_ok(data@, i as int)
                &&& p.0@ == elem_field(data@, i as int)
                &&& p.1 == elem_next(data@, i as int)
                &&& i < p.1 <= data@.len()
            },
            Option::None => !elem_ok(data@, i as int),
        },
{
    let n = data.len();
    if i >= n || data[i] != 36 {
        return None;
    }
    let (len64, e) = match parse_dec_u64(data, i + 1) {
        Some(p) => p,
        None => {
            proof {
                lemma_digits_end_in_range(data@, i as int + 1);
                if digits_end(data@, i as int + 1) != i as int + 1 {
                    lemma_digits_end_digits(data@, i as int + 1);
                    lemma_dec_value_nonneg(data@, i as int + 1, digits_end(data@, i as int + 1));
                }
            }
            return None;
        },
    };
    if n - e < 2 {
        return None;
    }
    if data[e] != 13 || data[e + 1] != 10 {
        return None;
    }
    if len64 > (n - e - 2) as u64 {
        proof {
            lemma_digits_end_in_range(data@, i as int + 1);
        }
        return None;
    }
    let flen = len64 as usize;
    if n - e - 2 - flen < 2 {
        return None;
    }
    if data[e + 2 + flen] != 13 || data[e + 2 + flen + 1] != 10 {
        return None;
    }
    let field = slice_to_vec(slice_subrange(data, e + 2, e + 2 + flen));
    Some((field, e + 2 + flen + 2))
}

/// Splits a frame into its fields, decoded as UTF-8 strings.  Fails with
/// `Protocol` exactly when the bytes do not form a whole frame or a field
/// is not valid UTF-8.
pub fn deserialize(data: &[u8]) -> (r: Result<Vec<String>, TsaError>)
    ensures
        match r {
            Ok(parts) => {
                &&& frame_parse(data@) is Some
                &&& parts@.len() == frame_parse(data@)->Some_0.len()
                &&& forall|q: int|
                    0 <= q < parts@.len() ==> {
                        &&& valid_utf8(#[trigger] frame_parse(data@)->Some_0[q])
                        &&& parts@[q]@ == decode_utf8(frame_parse(data@)->Some_0[q])
                    }
            },
            Err(e) => e is Protocol && (frame_parse(data@) is None || exists|q: int|
                0 <= q < frame_parse(data@)->Some_0.len() && !valid_utf8(
                    #[trigger] frame_parse(data@)->Some_0[q],
                )),
        },
{
    let n = data.len();
    if n < 1 || data[0] != 42 {
        return Err(TsaError::Protocol(String::from_str("missing array header")));
    }
    let (cnt64, e) = match parse_dec_u64(data, 1) {
        Some(p) => p,
        None => {
            proof {
                lemma_digits_end_in_range(data@, 1);
                if digits_end(data@, 1) != 1 {
                    lemma_digits_end_digits(data@, 1);
                    lemma_dec_value_nonneg(data@, 1, digits_end(data@, 1));
                    if frame_parse(data@) is Some {
                        lemma_elems_parse_bound(
                            data@,
                            digits_end(data@, 1) + 2,
                            dec_value(data@, 1, digits_end(data@, 1)) as nat,
                        );
                    }
                }
            }
            return Err(TsaError::Protocol(String::from_str("invalid array count")));
        },
    };
    if n - e < 2 {
        return Err(TsaError::Protocol(String::from_str("missing array terminator")));
    }
    if data[e] != 13 || data[e + 1] != 10 {
        return Err(TsaError::Protocol(String::from_str("missing array terminator")));
    }
    if cnt64 > n as u64 {
        proof {
            if frame_parse(data@) is Some {
                lemma_elems_parse_bound(data@, e as int + 2, cnt64 as nat);
            }
        }
        return Err(TsaError::Protocol(String::from_str("invalid array count")));
    }
    let cnt = cnt64 as usize;
    let mut parts: Vec<String> = Vec::new();
    let ghost done = Seq::<Seq<u8>>::empty();
    let mut pos: usize = e + 2;
    let mut t: usize = 0;
    proof {
        assert(frame_parse(data@) == elems_parse(data@, pos as int, cnt as nat));
    }
    while t < cnt
        invariant
            0 <= t <= cnt,
            pos <= data@.len(),
            parts@.len() == t,
            done.len() == t,
            frame_parse(data@) == (match elems_parse(data@, pos as int, (cnt - t) as nat) {
                Option::Some(rest) => Option::Some(done + rest),
                Option::None => Option::<Seq<Seq<u8>>>::None,
            }),
            forall|q: int|
                0 <= q < t ==> valid_utf8(#[trigger] done[q]) && parts@[q]@ == decode_utf8(
                    done[q],
                ),
        decreases cnt - t,
    {
        let (field, next) = match parse_elem(data, pos) {
            Some(p) => p,
            None => {
                return Err(TsaError::Protocol(String::from_str("invalid bulk string")));
            },
        };
        let ghost fbytes = field@;
        proof {
            assert(elems_parse(data@, pos as int, (cnt - t) as nat) == (
            match elems_parse(data@, next as int, (cnt - t - 1) as nat) {
                Option::Some(rest) => Option::Some(seq![fbytes] + rest),
                Option::None => Option::<Seq<Seq<u8>>>::None,
            }));
        }
        let s = match bytes_to_string(field) {
            Some(s) => s,
            None => {
                proof {
                    if elems_parse(data@, next as int, (cnt - t - 1) as nat) is Some {
                        let rest = elems_parse(data@, next as int, (cnt - t - 1) as nat)->Some_0;
                        assert(frame_parse(data@)->Some_0 == done + (seq![fbytes] + rest));
                        assert(frame_parse(data@)->Some_0[t as int] == fbytes);
                    }
                }
                return Err(TsaError::Protocol(String::from_str("invalid UTF-8 in field")));
            },
        };
        parts.push(s);
        proof {
            done = done.push(fbytes);
            if elems_parse(data@, next as int, (cnt - t - 1) as nat) is Some {
                let rest = elems_parse(data@, next as int, (cnt - t - 1) as nat)->Some_0;
                assert(done.drop_last() + (seq![fbytes] + rest) =~= done + rest);
            }
        }
        pos = next;
        t += 1;
    }
    if pos < n {
        proof {
            assert(elems_parse(data@, pos as int, 0) is None);
        }
        return Err(TsaError::Protocol(String::from_str("trailing bytes after frame")));
    }
    proof {
        assert(pos == data@.len());
        assert(elems_parse(data@, pos as int, 0) == Option::<Seq<Seq<u8>>>::Some(
            Seq::<Seq<u8>>::empty(),
        ));
        assert(done + Seq::<Seq<u8>>::empty() =~= done);
    }
    Ok(parts)
}

proof fn lemma_dec_digits_value(d: Seq<u8>, i: int, n: nat)
    requires
        0 <= i,
        i + dec_digits(n).len() <= d.len(),
        d.subrange(i, i + dec_digits(n).len()) == dec_digits(n),
    ensures
        dec_value(d, i, i + dec_digits(n).len()) == n,
    decreases n,
{
    let k = dec_digits(n).len() as int;
    if n < 10 {
        assert(d[i] == d.subrange(i, i + 1)[0]);
        assert(d[i] == (48 + n) as u8);
        assert(dec_value(d, i, i + 1) == dec_value(d, i, i) * 10 + (d[i] - 48));
        assert(dec_value(d, i, i) == 0);
        assert(d[i] - 48 == n);
    } else {
        assert(dec_digits(n).drop_last() =~= dec_digits(n / 10));
        assert(d.subrange(i, i + k - 1) =~= dec_digits(n / 10)) by {
            assert forall|t: int| 0 <= t < k - 1 implies #[trigger] d.subrange(i, i + k - 1)[t]
                == dec_digits(n / 10)[t] by {
                assert(d.subrange(i, i + k)[t] == dec_digits(n)[t]);
            }
        }
        lemma_dec_digits_value(d, i, n / 10);
        assert(d[i + k - 1] == d.subrange(i, i + k)[k - 1]);
        assert(d[i + k - 1] == (48 + n % 10) as u8);
        assert(dec_value(d, i, i + k) == dec_value(d, i, i + k - 1) * 10 + (d[i + k - 1] - 48));
        vstd::arithmetic::div_mod::lemma_fundamental_div_mod(n as int, 10);
        assert(d[i + k - 1] - 48 == n % 10);
        assert(dec_value(d, i, i + k - 1) == n / 10);
        assert(dec_value(d, i, i + k) == (n / 10) * 10 + n % 10);
    }
}

proof fn lemma_elems_round_trip(d: Seq<u8>, i: int, fs: Seq<Seq<u8>>)
    requires
        0 <= i <= d.len(),
        d.subrange(i, d.len() as int) == fields_frame(fs),
    ensures
        elems_parse(d, i, fs.len()) == Some(fs),
    decreases fs.len(),
{
    if fs.len() == 0 {
        assert(fields_frame(fs) =~= Seq::<u8>::empty());
        assert(i == d.len());
        assert(elems_parse(d, i, 0) == Some(Seq::<Seq<u8>>::empty()));
        assert(Seq::<Seq<u8>>::empty() =~= fs);
    } else {
        let f = fs[0];
        let dl = dec_digits(f.len());
        let k = dl.len() as int;
        let ff = field_frame(f);
        let rest = d.subrange(i, d.len() as int);
        assert(rest == ff + fields_frame(fs.drop_first()));
        assert(ff.len() == k + 5 + f.len());
        assert forall|t: int| 0 <= t < ff.len() implies d[i + t] == ff[t] by {
            assert(d[i + t] == rest[t]);
        }
        assert(d[i + 0] == ff[0]);
        assert(d[i] == 36);
        assert(d.subrange(i + 1, i + 1 + k) =~= dl) by {
            assert(forall|t: int| 0 <= t < k ==> #[trigger] dl[t] == ff[1 + t]);
        }
        lemma_dec_digits_are_digits(f.len());
        assert forall|t: int| i + 1 <= t < i + 1 + k implies is_digit(d[t]) by {
            assert(d[t] == d.subrange(i + 1, i + 1 + k)[t - i - 1]);
        }
        assert(d[i + 1 + k] == ff[1 + k]);
        assert(d[i + 1 + k] == 13);
        assert(!is_digit(13u8));
        lemma_digits_run(d, i + 1, i + 1 + k);
        assert(digits_end(d, i + 1) == i + 1 + k);
        lemma_dec_digits_value(d, i + 1, f.len());
        assert(dec_value(d, i + 1, i + 1 + k) == f.len());
        assert(d[i + 2 + k] == ff[2 + k]);
        assert(d[i + 2 + k] == 10);
        assert(d.subrange(i + 3 + k, i + 3 + k + f.len()) =~= f) by {
            assert(forall|t: int| 0 <= t < f.len() ==> #[trigger] f[t] == ff[3 + k + t]);
        }
        assert(d[i + 3 + k + f.len()] == ff[3 + k + f.len()]);
        assert(d[i + 3 + k + f.len()] == 13);
        assert(d[i + 4 + k + f.len()] == ff[4 + k + f.len()]);
        assert(d[i + 4 + k + f.len()] == 10);
        assert(elem_ok(d, i));
        assert(elem_field(d, i) == f);
        assert(elem_next(d, i) == i + ff.len());
        assert(d.subrange(i + ff.len(), d.len() as int) =~= fields_frame(fs.drop_first())) by {
            assert forall|t: int| 0 <= t < d.len() - i - ff.len() implies d.subrange(
                i + ff.len(),
                d.len() as int,
            )[t] == fields_frame(fs.drop_first())[t] by {
                assert(d.subrange(i + ff.len(), d.len() as int)[t] == rest[ff.len() + t]);
            }
        }
        lemma_elems_round_trip(d, i + ff.len(), fs.drop_first());
        assert(seq![f] + fs.drop_first() =~= fs);
    }
}

/// Round trip: a frame built from any fields splits back into exactly
/// those fields.
pub proof fn lemma_frame_round_trip(fs: Seq<Seq<u8>>)
    ensures
        frame_parse(resp_frame(fs)) == Some(fs),
{
    let d = resp_frame(fs);
    let dl = dec_digits(fs.len());
    let k = dl.len() as int;
    let head = seq![42u8] + dl + crlf();
    assert(head.len() == k + 3);
    assert forall|t: int| 0 <= t < head.len() implies d[t] == head[t] by {
        assert(d[t] == (head + fields_frame(fs))[t]);
    }
    assert(d[0] == 42);
    assert(d.subrange(1, 1 + k) =~= dl) by {
        assert(forall|t: int| 0 <= t < k ==> #[trigger] dl[t] == head[1 + t]);
    }
    lemma_dec_digits_are_digits(fs.len());
    assert forall|t: int| 1 <= t < 1 + k implies is_digit(d[t]) by {
        assert(d[t] == d.subrange(1, 1 + k)[t - 1]);
    }
    assert(d[1 + k] == head[1 + k]);
    assert(d[1 + k] == 13);
    assert(!is_digit(13u8));
    lemma_digits_run(d, 1, 1 + k);
    assert(digits_end(d, 1) == 1 + k);
    lemma_dec_digits_value(d, 1, fs.len());
    assert(d[2 + k] == head[2 + k]);
    assert(d[2 + k] == 10);
    assert(d.subrange(3 + k, d.len() as int) =~= fields_frame(fs)) by {
        assert forall|t: int| 0 <= t < d.len() - 3 - k implies d.subrange(3 + k, d.len() as int)[t]
            == fields_frame(fs)[t] by {
            assert(d.subrange(3 + k, d.len() as int)[t] == (head + fields_frame(fs))[head.len()
                + t]);
        }
    }
    lemma_elems_round_trip(d, 3 + k, fs);
}

} // verus!
