//! Records stored in a log, their canonical encoding and their leaf hash.
use vstd::prelude::*;

use crate::digest::{digest_bytes, hash_two_strings, node_hash, sha256_hex};
use crate::error::LogError;
use crate::geometry::{bit_length, lemma_bit_length_monotone};
use crate::levels::lemma_bit_length_u64;
use vstd::utf8::{encode_utf8, is_ascii_chars, is_ascii_chars_encode_utf8};

verus! {

#[verifier::external_type_specification]
#[verifier::external_body]
pub struct ExEncodeError(rmp_serde::encode::Error);

/// The `k` low bytes of `x`, most significant first.
pub open spec fn be_bytes(x: nat, k: nat) -> Seq<u8>
    decreases k,
{
    if k == 0 {
        Seq::empty()
    } else {
        be_bytes(x / 256, (k - 1) as nat).push((x % 256) as u8)
    }
}

/// MessagePack header of a string of `len` bytes: the shortest of fixstr,
/// str8, str16 and str32.
pub open spec fn msgpack_str_header(len: nat) -> Seq<u8> {
    if len < 32 {
        seq![(0xa0 + len) as u8]
    } else if len < 256 {
        seq![0xd9u8, len as u8]
    } else if len < 65536 {
        seq![0xdau8] + be_bytes(len, 2)
    } else {
        seq![0xdbu8] + be_bytes(len, 4)
    }
}

/// MessagePack encoding of a record made of one text field, in compact
/// form: an array of one element (`0x91`), then the text as a string.
pub open spec fn msgpack_text_record(text: Seq<char>) -> Seq<u8> {
    let bytes = encode_utf8(text);
    seq![0x91u8] + msgpack_str_header(bytes.len()) + bytes
}

/// A payload that a log can hold: it has a canonical byte encoding, and its
/// leaf hash is the digest of that encoding.
pub trait LogEntry {
    /// The canonical encoding of the payload.
    spec fn encoding(&self) -> Seq<u8>;

    /// Whether encoding the payload always succeeds.
    spec fn encodable(&self) -> bool;

    /// A copy of the payload.
    fn duplicate(&self) -> (r: Self) where Self: Sized
        ensures
            r == *self,
    ;

    /// Encodes the payload; the bytes are its canonical encoding.
    fn encode(&self) -> (r: Result<Vec<u8>, LogError>)
        ensures
            r matches Ok(b) ==> b@ == self.encoding(),
            self.encodable() ==> r is Ok,
    ;
}

/// Leaf hash of a payload whose canonical encoding is `encoding`.
pub open spec fn leaf_hash(encoding: Seq<u8>) -> Seq<char> {
    sha256_hex(encoding)
}

/// The records used to exercise a log: one line of text. A text longer than
/// `u32::MAX` bytes does not encode.
#[derive(Clone, Debug, PartialEq, Eq, PartialOrd, Ord)]
pub struct LogRecord {
    pub text: String,
}

impl LogRecord {
    /// A record holding the given text.
    pub fn new(s: &str) -> (r: Self)
        ensures
            r.text@ == s@,
    {
        LogRecord { text: s.to_owned() }
    }
}

/// Relies on `rmp_serde::to_vec`, in its compact form, on a one-element tuple
/// (the same bytes as a one-field record holding `text`): rmp's
/// `write_array_len` and `write_str`, which writes the length as a `u32`. It
/// writes into a growable vector, so the text always encodes.
#[verifier::external_body]
fn encode_text_record(text: &str) -> (r: Result<Vec<u8>, rmp_serde::encode::Error>)
    requires
        encode_utf8(text@).len() <= u32::MAX,
    ensures
        r matches Ok(b) ==> b@ == msgpack_text_record(text@),
        r is Ok,
{
    rmp_serde::to_vec(&(text,))
}

impl LogEntry for LogRecord {
    open spec fn encoding(&self) -> Seq<u8> {
        msgpack_text_record(self.text@)
    }

    open spec fn encodable(&self) -> bool {
        encode_utf8(self.text@).len() <= u32::MAX
    }

    fn duplicate(&self) -> (r: Self) {
        LogRecord { text: self.text.clone() }
    }

    fn encode(&self) -> (r: Result<Vec<u8>, LogError>) {
        let bytes = self.text.as_str().as_bytes();
        if bytes.len() > u32::MAX as usize {
            return Err(LogError::Codec);
        }
        match encode_text_record(self.text.as_str()) {
            Ok(b) => Ok(b),
            Err(_) => Err(LogError::Codec),
        }
    }
}

/// Leaf hash of a record: the digest of its canonical encoding.
pub fn hash<T: LogEntry>(record: &T) -> (r: Result<String, LogError>)
    ensures
        r matches Ok(h) ==> h@ == leaf_hash(record.encoding()) && h@.len() == 64,
        record.encodable() ==> r is Ok,
{
    let bytes = record.encode()?;
    Ok(digest_bytes(bytes.as_slice()))
}

/// Decimal rendering of a natural number.
pub open spec fn decimal(n: nat) -> Seq<char>
    decreases n,
{
    if n < 10 {
        seq![digit_char(n)]
    } else {
        decimal(n / 10).push(digit_char(n % 10))
    }
}

/// The character of a decimal digit.
pub open spec fn digit_char(d: nat) -> char {
    if d == 0 {
        '0'
    } else if d == 1 {
        '1'
    } else if d == 2 {
        '2'
    } else if d == 3 {
        '3'
    } else if d == 4 {
        '4'
    } else if d == 5 {
        '5'
    } else if d == 6 {
        '6'
    } else if d == 7 {
        '7'
    } else if d == 8 {
        '8'
    } else {
        '9'
    }
}

/// Text of the sample record number `i`: `rec` followed by `i` in decimal.
pub open spec fn sample_text(i: nat) -> Seq<char> {
    seq!['r', 'e', 'c'] + decimal(i)
}

/// The character of a decimal digit, as a string.
fn digit_string(d: usize) -> (r: String)
    requires
        d < 10,
    ensures
        r@ == seq![digit_char(d as nat)],
{
    proof {
        reveal_strlit("0");
        reveal_strlit("1");
        reveal_strlit("2");
        reveal_strlit("3");
        reveal_strlit("4");
        reveal_strlit("5");
        reveal_strlit("6");
        reveal_strlit("7");
        reveal_strlit("8");
        reveal_strlit("9");
    }
    let s = if d == 0 {
        "0"
    } else if d == 1 {
        "1"
    } else if d == 2 {
        "2"
    } else if d == 3 {
        "3"
    } else if d == 4 {
        "4"
    } else if d == 5 {
        "5"
    } else if d == 6 {
        "6"
    } else if d == 7 {
        "7"
    } else if d == 8 {
        "8"
    } else {
        "9"
    };
    let r = s.to_owned();
    assert(r@ =~= seq![digit_char(d as nat)]);
    r
}

/// Decimal rendering of a number.
pub fn decimal_string(i: usize) -> (r: String)
    ensures
        r@ == decimal(i as nat),
    decreases i,
{
    if i < 10 {
        digit_string(i)
    } else {
        let high = decimal_string(i / 10);
        let low = digit_string(i % 10);
        let r = high.concat(low.as_str());
        assert(r@ =~= decimal(i as nat));
        r
    }
}

/// The sample record number `i`, whose text is `rec` and `i` in decimal.
pub fn sample_record(i: usize) -> (r: LogRecord)
    ensures
        r.text@ == sample_text(i as nat),
{
    let digits = decimal_string(i);
    let prefix = "rec".to_owned();
    proof {
        reveal_strlit("rec");
    }
    assert(prefix@ == seq!['r', 'e', 'c']);
    LogRecord { text: prefix.concat(digits.as_str()) }
}

proof fn lemma_decimal_short(n: nat)
    ensures
        decimal(n).len() <= bit_length(n) + 1,
        is_ascii_chars(decimal(n)),
    decreases n,
{
    if n >= 10 {
        lemma_decimal_short(n / 10);
        lemma_bit_length_monotone(n / 10, n / 2);
        assert(is_ascii_chars(decimal(n))) by {
            assert forall|i| 0 <= i < decimal(n).len() implies '\0' <= #[trigger] decimal(n)[i]
                <= '\u{7f}' by {
                if i < decimal(n).len() - 1 {
                    assert(decimal(n)[i] == decimal(n / 10)[i]);
                }
            }
        }
    }
}

/// A sample record always encodes.
proof fn lemma_sample_encodable(i: nat)
    requires
        i <= u64::MAX,
    ensures
        encode_utf8(sample_text(i)).len() <= u32::MAX,
{
    lemma_decimal_short(i);
    lemma_bit_length_u64(i);
    let t = sample_text(i);
    assert(is_ascii_chars(t)) by {
        assert forall|k| 0 <= k < t.len() implies '\0' <= #[trigger] t[k] <= '\u{7f}' by {
            if k >= 3 {
                assert(t[k] == decimal(i)[k - 3]);
            }
        }
    }
    is_ascii_chars_encode_utf8(t);
}

/// Leaf hash of the sample record number `i`.
pub open spec fn sample_hash(i: nat) -> Seq<char> {
    leaf_hash(msgpack_text_record(sample_text(i)))
}

/// Hash of the two sample records from `start` on.
pub fn hash_two(start: usize) -> (r: Result<String, LogError>)
    requires
        start < usize::MAX,
    ensures
        r matches Ok(h) ==> h@ == node_hash(sample_hash(start as nat), sample_hash(start as nat + 1)),
        r is Ok,
{
    proof {
        lemma_sample_encodable(start as nat);
        lemma_sample_encodable(start as nat + 1);
    }
    let h1 = hash(&sample_record(start))?;
    let h2 = hash(&sample_record(start + 1))?;
    Ok(hash_two_strings(h1.as_str(), h2.as_str()))
}

/// Hash of the four sample records from `start` on.
pub fn hash_four(start: usize) -> (r: Result<String, LogError>)
    requires
        start <= usize::MAX - 3,
    ensures
        r matches Ok(h) ==> h@ == node_hash(
            node_hash(sample_hash(start as nat), sample_hash(start as nat + 1)),
            node_hash(sample_hash(start as nat + 2), sample_hash(start as nat + 3)),
        ),
        r is Ok,
{
    let h1 = hash_two(start)?;
    let h2 = hash_two(start + 2)?;
    Ok(hash_two_strings(h1.as_str(), h2.as_str()))
}

/// Hash of the eight sample records from `start` on.
pub fn hash_eight(start: usize) -> (r: Result<String, LogError>)
    requires
        start <= usize::MAX - 7,
    ensures
        r matches Ok(h) ==> h@ == node_hash(
            node_hash(
                node_hash(sample_hash(start as nat), sample_hash(start as nat + 1)),
                node_hash(sample_hash(start as nat + 2), sample_hash(start as nat + 3)),
            ),
            node_hash(
                node_hash(sample_hash(start as nat + 4), sample_hash(start as nat + 5)),
                node_hash(sample_hash(start as nat + 6), sample_hash(start as nat + 7)),
            ),
        ),
        r is Ok,
{
    let h1 = hash_four(start)?;
    let h2 = hash_four(start + 4)?;
    Ok(hash_two_strings(h1.as_str(), h2.as_str()))
}

} // verus!
