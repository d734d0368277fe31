use vstd::prelude::*;
use vstd::utf8::{decode_utf8, encode_utf8, valid_utf8};

use crate::numeral::{decimal_of_text, decimal_text, parse_decimal, write_decimal, Decimal};

verus! {

/// The byte that ends a record on the wire: `','`.
pub const DELIMITER: u8 = 44;

/// The byte that separates the fields of a record: `';'`.
pub const SEPARATOR: u8 = 59;

/// One telemetry reading: a key such as `temperature` and its value.
#[derive(Clone, Debug, PartialEq, Eq)]
pub struct Message {
    pub key: String,
    pub value: Decimal,
}

/// A frame that is not `key;value;end` followed by the delimiter.
#[derive(Clone, Copy, Debug, PartialEq, Eq)]
pub enum DecodeError {
    Malformed,
}

/// The marker that closes every record: `end`.
pub open spec fn end_marker() -> Seq<u8> {
    seq![101u8, 110u8, 100u8]
}

/// True for ASCII space, tab, line feed and carriage return.
pub open spec fn is_space(b: u8) -> bool {
    b == 32 || b == 9 || b == 10 || b == 13
}

/// The last field of a record: the end marker, then nothing but whitespace.
pub open spec fn is_end_field(f: Seq<u8>) -> bool {
    &&& f.len() >= 3
    &&& f.take(3) == end_marker()
    &&& forall|i: int| 3 <= i < f.len() ==> is_space(#[trigger] f[i])
}

/// The bytes of a record: `key;value;end,`.
pub open spec fn frame_of(key: Seq<char>, value: Decimal) -> Seq<u8> {
    encode_utf8(key) + seq![SEPARATOR] + decimal_text(value) + seq![SEPARATOR] + end_marker()
        + seq![DELIMITER]
}

/// A key can travel on the wire when its bytes hold neither the separator nor
/// the delimiter, and do not start with whitespace, which a receiver trims.
pub open spec fn valid_key(key: Seq<char>) -> bool {
    &&& !encode_utf8(key).contains(SEPARATOR)
    &&& !encode_utf8(key).contains(DELIMITER)
    &&& !(encode_utf8(key).len() > 0 && is_space(encode_utf8(key)[0]))
}

/// `b` without its leading whitespace.
pub open spec fn trim_start(b: Seq<u8>) -> Seq<u8>
    decreases b.len(),
{
    if b.len() > 0 && is_space(b[0]) {
        trim_start(b.drop_first())
    } else {
        b
    }
}

/// What `String::from_utf8_lossy` makes of bytes that are not valid UTF-8.
pub uninterp spec fn lossy_text(b: Seq<u8>) -> Seq<char>;

/// The text of a key field: its characters when it is valid UTF-8, otherwise
/// the lossy reading with replacement characters.
pub open spec fn key_text(b: Seq<u8>) -> Seq<char> {
    if valid_utf8(b) {
        decode_utf8(b)
    } else {
        lossy_text(b)
    }
}

/// The fields of `b` between separators, in order; there is always at least one.
pub open spec fn split_fields(b: Seq<u8>) -> Seq<Seq<u8>>
    decreases b.len(),
{
    if b.len() == 0 {
        seq![Seq::empty()]
    } else {
        let prev = split_fields(b.drop_last());
        if b.last() == SEPARATOR {
            prev.push(Seq::empty())
        } else {
            prev.update(prev.len() - 1, prev.last().push(b.last()))
        }
    }
}

/// A frame without its trailing delimiter, if it has one.
pub open spec fn frame_body(f: Seq<u8>) -> Seq<u8> {
    if f.len() > 0 && f.last() == DELIMITER {
        f.drop_last()
    } else {
        f
    }
}

/// The key text and value that a frame holds, or `None` when it is malformed.
/// Whitespace before the key, such as a line break after the previous
/// record, is ignored.
pub open spec fn decoded(f: Seq<u8>) -> Option<(Seq<char>, Decimal)> {
    let fs = split_fields(trim_start(frame_body(f)));
    if fs.len() == 3 && is_end_field(fs[2]) && decimal_of_text(fs[1]).is_some() {
        Some((key_text(fs[0]), decimal_of_text(fs[1]).unwrap()))
    } else {
        None
    }
}

pub proof fn lemma_split_fields_len(b: Seq<u8>)
    ensures
        split_fields(b).len() >= 1,
    decreases b.len(),
{
    if b.len() > 0 {
        lemma_split_fields_len(b.drop_last());
    }
}

/// Bytes without a separator are one field.
pub proof fn lemma_split_single(b: Seq<u8>)
    requires
        !b.contains(SEPARATOR),
    ensures
        split_fields(b) == seq![b],
    decreases b.len(),
{
    if b.len() > 0 {
        assert(!b.drop_last().contains(SEPARATOR)) by {
            if b.drop_last().contains(SEPARATOR) {
                let i = choose|i: int| 0 <= i < b.drop_last().len() && b.drop_last()[i] == SEPARATOR;
                assert(b[i] == SEPARATOR);
            }
        }
        assert(b[b.len() - 1] != SEPARATOR);
        lemma_split_single(b.drop_last());
        assert(b.drop_last().push(b.last()) =~= b);
        assert(split_fields(b) =~= seq![b]);
    } else {
        assert(b =~= Seq::<u8>::empty());
        assert(split_fields(b) =~= seq![b]);
    }
}

/// Splitting at a separator splits the fields.
pub proof fn lemma_split_concat(x: Seq<u8>, y: Seq<u8>)
    ensures
        split_fields(x + seq![SEPARATOR] + y) == split_fields(x) + split_fields(y),
    decreases y.len(),
{
    let s = x + seq![SEPARATOR] + y;
    lemma_split_fields_len(x);
    lemma_split_fields_len(y);
    if y.len() == 0 {
        assert(s.drop_last() =~= x);
        assert(split_fields(s) =~= split_fields(x) + split_fields(y));
    } else {
        assert(s.drop_last() =~= x + seq![SEPARATOR] + y.drop_last());
        lemma_split_concat(x, y.drop_last());
        lemma_split_fields_len(y.drop_last());
        assert(split_fields(s) =~= split_fields(x) + split_fields(y));
    }
}

/// The text of a value holds neither the separator nor the delimiter.
pub proof fn lemma_value_avoids(value: Decimal, b: u8)
    requires
        b == SEPARATOR || b == DELIMITER,
    ensures
        !decimal_text(value).contains(b),
{
    crate::numeral::lemma_decimal_text_avoids(value, b);
}

/// Decoding the encoding of a message with a valid key gives the message back.
pub proof fn lemma_round_trip(key: Seq<char>, value: Decimal)
    requires
        valid_key(key),
    ensures
        decoded(frame_of(key, value)) == Some((key, value)),
{
    let k = encode_utf8(key);
    let v = decimal_text(value);
    let f = frame_of(key, value);
    assert(frame_body(f) =~= k + seq![SEPARATOR] + v + seq![SEPARATOR] + end_marker());
    lemma_value_avoids(value, SEPARATOR);
    lemma_split_concat(k + seq![SEPARATOR] + v, end_marker());
    lemma_split_concat(k, v);
    lemma_split_single(k);
    lemma_split_single(v);
    assert(!end_marker().contains(SEPARATOR)) by {
        assert(end_marker()[0] != SEPARATOR && end_marker()[1] != SEPARATOR && end_marker()[2]
            != SEPARATOR);
    }
    lemma_split_single(end_marker());
    assert(split_fields(frame_body(f)) =~= seq![k, v, end_marker()]);
    assert(trim_start(frame_body(f)) == frame_body(f)) by {
        if k.len() == 0 {
            assert(frame_body(f)[0] == SEPARATOR);
        } else {
            assert(frame_body(f)[0] == k[0]);
        }
    }
    assert(end_marker().take(3) =~= end_marker());
    crate::numeral::lemma_decimal_round_trip(value);
    vstd::utf8::encode_utf8_valid_utf8(key);
    vstd::utf8::encode_utf8_decode_utf8(key);
}

/// Relies on `String::from_utf8_lossy`: valid UTF-8 comes back as the same
/// characters, anything else with replacement characters.
#[verifier::external_body]
fn text_lossy(b: &[u8]) -> (r: String)
    ensures
        valid_utf8(b@) ==> r@ == decode_utf8(b@),
        !valid_utf8(b@) ==> r@ == lossy_text(b@),
{
    String::from_utf8_lossy(b).into_owned()
}

/// The bytes of `msg` on the wire: `key;value;end,`.
pub fn encode(msg: &Message) -> (r: Vec<u8>)
    ensures
        r@ == frame_of(msg.key@, msg.value),
{
    let mut out = msg.key.as_str().as_bytes_vec();
    out.push(SEPARATOR);
    write_decimal(&mut out, msg.value);
    out.push(SEPARATOR);
    out.push(101);
    out.push(110);
    out.push(100);
    out.push(DELIMITER);
    assert(out@ =~= frame_of(msg.key@, msg.value));
    out
}

/// The contents of each buffer of `v`.
pub open spec fn views(v: Seq<Vec<u8>>) -> Seq<Seq<u8>> {
    v.map_values(|x: Vec<u8>| x@)
}

/// Splits `b` into its fields between separators.
pub fn split(b: &[u8]) -> (r: Vec<Vec<u8>>)
    ensures
        views(r@) == split_fields(b@),
{
    let mut done: Vec<Vec<u8>> = Vec::new();
    let mut cur: Vec<u8> = Vec::new();
    let mut i: usize = 0;
    while i < b.len()
        invariant
            i <= b.len(),
            views(done@).push(cur@) == split_fields(b@.take(i as int)),
        decreases b.len() - i,
    {
        let c = b[i];
        assert(b@.take(i + 1).drop_last() =~= b@.take(i as int));
        assert(b@.take(i + 1).last() == c);
        if c == SEPARATOR {
            let ghost before = views(done@).push(cur@);
            done.push(cur);
            cur = Vec::new();
            assert(views(done@).push(cur@) =~= before.push(Seq::empty()));
        } else {
            let ghost before = views(done@).push(cur@);
            cur.push(c);
            assert(views(done@).push(cur@) =~= before.update(
                before.len() - 1,
                before.last().push(c),
            ));
        }
        i = i + 1;
    }
    assert(b@.take(i as int) =~= b@);
    let ghost before = views(done@).push(cur@);
    done.push(cur);
    assert(views(done@) =~= before);
    done
}

/// Reads one frame: strips the trailing delimiter, then expects exactly a key,
/// a decimal value and the end marker, separated by `;`. Whitespace after the
/// end marker and before the key is allowed.
pub fn decode(frame: &[u8]) -> (r: Result<Message, DecodeError>)
    ensures
        match r {
            Ok(m) => decoded(frame@) == Some((m.key@, m.value)),
            Err(_) => decoded(frame@).is_none(),
        },
{
    let n = frame.len();
    let body_len: usize = if n > 0 && frame[n - 1] == DELIMITER { n - 1 } else { n };
    let whole = slice_prefix(frame, body_len);
    assert(whole@ =~= frame_body(frame@));
    let mut j: usize = 0;
    assert(whole@.skip(0) =~= whole@);
    while j < whole.len() && (whole[j] == 32 || whole[j] == 9 || whole[j] == 10 || whole[j] == 13)
        invariant
            j <= whole@.len(),
            trim_start(whole@.skip(j as int)) == trim_start(whole@),
        decreases whole@.len() - j,
    {
        assert(whole@.skip(j as int).drop_first() =~= whole@.skip(j + 1));
        j = j + 1;
    }
    let body = whole.split_at(j).1;
    assert(body@ =~= whole@.skip(j as int));
    assert(trim_start(body@) == body@);
    let fields = split(body);
    if fields.len() != 3 {
        return Err(DecodeError::Malformed);
    }
    assert(fields[2]@ == views(fields@)[2]);
    if !end_field(fields[2].as_slice()) {
        return Err(DecodeError::Malformed);
    }
    assert(fields[1]@ == views(fields@)[1]);
    match parse_decimal(fields[1].as_slice()) {
        None => Err(DecodeError::Malformed),
        Some(value) => {
            assert(fields[0]@ == views(fields@)[0]);
            let key = text_lossy(fields[0].as_slice());
            Ok(Message { key, value })
        },
    }
}

/// Whether `f` is the end marker followed only by whitespace.
fn end_field(f: &[u8]) -> (r: bool)
    ensures
        r == is_end_field(f@),
{
    if f.len() < 3 || f[0] != 101 || f[1] != 110 || f[2] != 100 {
        assert(f@.len() >= 3 ==> f@.take(3)[0] == f@[0] && f@.take(3)[1] == f@[1]
            && f@.take(3)[2] == f@[2]);
        return false;
    }
    assert(f@.take(3) =~= end_marker());
    let mut i: usize = 3;
    while i < f.len()
        invariant
            3 <= i <= f@.len(),
            forall|j: int| 3 <= j < i ==> is_space(#[trigger] f@[j]),
        decreases f@.len() - i,
    {
        let b = f[i];
        if !(b == 32 || b == 9 || b == 10 || b == 13) {
            return false;
        }
        i = i + 1;
    }
    true
}

/// The first `n` bytes of `b`.
fn slice_prefix(b: &[u8], n: usize) -> (r: &[u8])
    requires
        n <= b@.len(),
    ensures
        r@ == b@.take(n as int),
{
    b.split_at(n).0
}

} // verus!
