//! The JSON text of a record: an object with the fields `key`,
//! `integrity` (a string, or `null` for a tombstone), `time`, `size` and
//! `metadata`, in that order and without white space.
use crate::codec::{encode_line, framed};
use crate::index::{RecordView, SerializableEntry};
use vstd::prelude::*;
use vstd::string::StringSliceAdditionalSpecFns;
use vstd::utf8::encode_utf8;

verus! {

/// The JSON string literal for a text: quoted, with escapes.
pub uninterp spec fn json_quoted(s: Seq<char>) -> Seq<char>;

/// Relies on `serde_json::to_string` on a `str`: the JSON string literal for
/// it. Serialising a `str` into a `String` has no way to fail.
#[verifier::external_body]
fn quote_json(s: &str) -> (r: String)
    ensures
        r@ == json_quoted(s@),
{
    serde_json::to_string(s).unwrap_or_default()
}

/// The decimal digits of `n`, as ASCII bytes, most significant first.
pub open spec fn decimal(n: nat) -> Seq<u8>
    decreases n,
{
    if n < 10 {
        seq![(48 + n) as u8]
    } else {
        decimal(n / 10).push((48 + n % 10) as u8)
    }
}

/// The UTF-8 bytes of a text.
pub open spec fn utf8(s: Seq<char>) -> Seq<u8> {
    encode_utf8(s)
}

/// The bytes of the JSON text of a record.
pub open spec fn payload_of(r: RecordView) -> Seq<u8> {
    utf8("{\"key\":"@) + utf8(json_quoted(r.key)) + utf8(",\"integrity\":"@) + match r.integrity {
        Some(i) => utf8(json_quoted(i)),
        None => utf8("null"@),
    } + utf8(",\"time\":"@) + decimal(r.time as nat) + utf8(",\"size\":"@) + decimal(
        r.size as nat,
    ) + utf8(",\"metadata\":"@) + utf8(r.metadata) + utf8("}"@)
}

fn push_bytes(out: &mut Vec<u8>, s: &str)
    ensures
        final(out)@ == old(out)@ + utf8(s@),
{
    let b = s.as_bytes();
    let mut i: usize = 0;
    while i < b.len()
        invariant
            i <= b@.len(),
            b@ == s.spec_bytes(),
            out@ == old(out)@ + b@.subrange(0, i as int),
        decreases b@.len() - i,
    {
        out.push(b[i]);
        i = i + 1;
    }
    assert(b@.subrange(0, b@.len() as int) =~= b@);
}

fn push_decimal(out: &mut Vec<u8>, n: u128)
    ensures
        final(out)@ == old(out)@ + decimal(n as nat),
    decreases n,
{
    if n >= 10 {
        push_decimal(out, n / 10);
    }
    let ghost mid = out@;
    out.push((48 + n % 10) as u8);
    proof {
        if n < 10 {
            assert(out@ =~= old(out)@ + decimal(n as nat));
        } else {
            assert(mid == old(out)@ + decimal((n / 10) as nat));
            assert(out@ =~= old(out)@ + decimal(n as nat));
        }
    }
}

/// The JSON text of a record, as bytes.
pub fn encode_payload(rec: &SerializableEntry) -> (r: Vec<u8>)
    ensures
        r@ == payload_of(rec@),
{
    let mut out: Vec<u8> = Vec::new();
    push_bytes(&mut out, "{\"key\":");
    let k = quote_json(rec.key.as_str());
    push_bytes(&mut out, k.as_str());
    push_bytes(&mut out, ",\"integrity\":");
    match &rec.integrity {
        Some(i) => {
            let q = quote_json(i.as_str());
            push_bytes(&mut out, q.as_str());
        },
        None => {
            push_bytes(&mut out, "null");
        },
    }
    push_bytes(&mut out, ",\"time\":");
    push_decimal(&mut out, rec.time);
    push_bytes(&mut out, ",\"size\":");
    push_decimal(&mut out, rec.size as u128);
    push_bytes(&mut out, ",\"metadata\":");
    push_bytes(&mut out, rec.metadata.as_str());
    push_bytes(&mut out, "}");
    out
}

/// The line that appending `rec` to its bucket writes: a newline, the
/// checksum of the record's JSON text, a tab, and that text.
pub fn encode_record(rec: &SerializableEntry) -> (r: Vec<u8>)
    ensures
        r@ == framed(payload_of(rec@)),
{
    let p = encode_payload(rec);
    encode_line(p.as_slice())
}

} // verus!
