//! The log line format: `\n<hex sha-256 of payload>\t<payload>`, and the
//! reading of a bucket's bytes back into the payloads whose checksum holds.
use crate::hashing::{hash_entry, lemma_hex_digits, payload_checksum};
use vstd::prelude::*;
use vstd::utf8::*;

verus! {

broadcast use is_ascii_chars_encode_utf8;

pub open spec fn newline() -> u8 {
    10
}

pub open spec fn tab() -> u8 {
    9
}

/// The checksum field of a record, as the bytes that stand on disk.
pub open spec fn checksum_field(payload: Seq<u8>) -> Seq<u8> {
    encode_utf8(payload_checksum(payload))
}

pub open spec fn free_of(s: Seq<u8>, b: u8) -> bool {
    forall|i: int| 0 <= i < s.len() ==> #[trigger] s[i] != b
}

/// `line` is exactly two tab-separated fields, the second being `payload`
/// and the first its checksum.
pub open spec fn is_record(line: Seq<u8>, payload: Seq<u8>) -> bool {
    free_of(payload, tab()) && line == checksum_field(payload) + seq![tab()] + payload
}

/// The payload of a line, if the line is a sound record.
pub open spec fn line_payload(line: Seq<u8>) -> Option<Seq<u8>> {
    if exists|p: Seq<u8>| is_record(line, p) {
        Some(choose|p: Seq<u8>| is_record(line, p))
    } else {
        None
    }
}

/// The line that appending `payload` adds to a bucket.
pub open spec fn framed(payload: Seq<u8>) -> Seq<u8> {
    seq![newline()] + checksum_field(payload) + seq![tab()] + payload
}

/// `s` cut at every newline, as `str::split('\n')` does.
pub open spec fn split_lines(s: Seq<u8>) -> Seq<Seq<u8>>
    decreases s.len(),
{
    if s.len() == 0 {
        seq![Seq::empty()]
    } else {
        let prev = split_lines(s.drop_last());
        if s.last() == newline() {
            prev.push(Seq::empty())
        } else {
            prev.update(prev.len() - 1, prev.last().push(s.last()))
        }
    }
}

/// The payloads of the sound records among `lines`, in order.
pub open spec fn payloads_in(lines: Seq<Seq<u8>>) -> Seq<Seq<u8>>
    decreases lines.len(),
{
    if lines.len() == 0 {
        Seq::empty()
    } else {
        let prev = payloads_in(lines.drop_last());
        match line_payload(lines.last()) {
            Some(p) => prev.push(p),
            None => prev,
        }
    }
}

/// The payloads of every sound record of a bucket, in file order.
pub open spec fn payloads_of(content: Seq<u8>) -> Seq<Seq<u8>> {
    payloads_in(split_lines(content))
}

pub proof fn lemma_split_lines_nonempty(s: Seq<u8>)
    ensures
        split_lines(s).len() >= 1,
    decreases s.len(),
{
    if s.len() > 0 {
        lemma_split_lines_nonempty(s.drop_last());
    }
}

/// The checksum field holds hex digits only: no tab and no newline.
pub proof fn lemma_checksum_field(payload: Seq<u8>)
    ensures
        free_of(checksum_field(payload), tab()),
        free_of(checksum_field(payload), newline()),
        checksum_field(payload).len() == payload_checksum(payload).len(),
{
    let c = payload_checksum(payload);
    lemma_hex_digits(crate::hashing::sha256_of(payload));
    assert(is_ascii_chars(c));
    let f = checksum_field(payload);
    assert forall|i: int| 0 <= i < f.len() implies f[i] != tab() && f[i] != newline() by {
        assert(c[i] as u8 == f[i]);
    }
}

/// A line holds the payload of at most one record.
pub proof fn lemma_record_unique(line: Seq<u8>, pa: Seq<u8>, pb: Seq<u8>)
    requires
        is_record(line, pa),
        is_record(line, pb),
    ensures
        pa == pb,
{
    lemma_checksum_field(pa);
    lemma_checksum_field(pb);
    let n1 = checksum_field(pa).len() as int;
    let n2 = checksum_field(pb).len() as int;
    assert(line[n1] == tab());
    assert(line[n2] == tab());
    if n1 < n2 {
        assert(line[n1] == checksum_field(pb)[n1]);
    } else if n2 < n1 {
        assert(line[n2] == checksum_field(pa)[n2]);
    }
    assert(pa =~= line.subrange(n1 + 1, line.len() as int));
    assert(pb =~= line.subrange(n2 + 1, line.len() as int));
}

/// Appends `s` to `v`.
fn push_all(v: &mut Vec<u8>, s: &[u8])
    ensures
        final(v)@ == old(v)@ + s@,
{
    let mut i: usize = 0;
    while i < s.len()
        invariant
            i <= s@.len(),
            v@ == old(v)@ + s@.subrange(0, i as int),
        decreases s@.len() - i,
    {
        v.push(s[i]);
        i = i + 1;
    }
    assert(s@.subrange(0, s@.len() as int) =~= s@);
}

/// The bytes `s[lo..hi]` as a vector of their own.
fn copy_range(s: &[u8], lo: usize, hi: usize) -> (r: Vec<u8>)
    requires
        lo <= hi <= s@.len(),
    ensures
        r@ == s@.subrange(lo as int, hi as int),
{
    let mut r: Vec<u8> = Vec::new();
    let mut i: usize = lo;
    while i < hi
        invariant
            lo <= i <= hi <= s@.len(),
            r@ == s@.subrange(lo as int, i as int),
        decreases hi - i,
    {
        r.push(s[i]);
        i = i + 1;
        assert(r@ =~= s@.subrange(lo as int, i as int));
    }
    r
}

/// The line to append to a bucket for one serialised entry.
pub fn encode_line(payload: &[u8]) -> (r: Vec<u8>)
    ensures
        r@ == framed(payload@),
{
    let h = hash_entry(payload);
    let mut r: Vec<u8> = Vec::new();
    r.push(10u8);
    push_all(&mut r, h.as_str().as_bytes());
    r.push(9u8);
    push_all(&mut r, payload);
    r
}

/// The payload of `line` when it is two tab-separated fields whose first is
/// the checksum of the second; `None` for any other line.
pub fn decode_line(line: &[u8]) -> (r: Option<Vec<u8>>)
    ensures
        match r {
            Some(p) => is_record(line@, p@),
            None => !exists|p: Seq<u8>| is_record(line@, p),
        },
{
    let n = line.len();
    let mut t: usize = 0;
    while t < n && line[t] != 9u8
        invariant
            t <= n == line@.len(),
            free_of(line@.subrange(0, t as int), tab()),
        decreases n - t,
    {
        t = t + 1;
        assert(line@.subrange(0, t as int)[t - 1] != tab());
        assert forall|i: int| 0 <= i < t implies #[trigger] line@.subrange(0, t as int)[i] != tab() by {
            if i < t - 1 {
                assert(line@.subrange(0, t as int)[i] == line@.subrange(0, t - 1)[i]);
            }
        }
    }
    if t == n {
        proof {
            assert(line@.subrange(0, n as int) =~= line@);
            assert forall|p: Seq<u8>| !is_record(line@, p) by {
                if is_record(line@, p) {
                    let k = checksum_field(p).len() as int;
                    assert(line@[k] == tab());
                    assert(line@.subrange(0, n as int)[k] == tab());
                }
            }
        }
        return None;
    }
    let mut j: usize = t + 1;
    while j < n
        invariant
            t < j <= n == line@.len(),
            line@[t as int] == tab(),
            free_of(line@.subrange(0, t as int), tab()),
            free_of(line@.subrange(t + 1, j as int), tab()),
        decreases n - j,
    {
        if line[j] == 9u8 {
            proof {
                assert forall|p: Seq<u8>| !is_record(line@, p) by {
                    if is_record(line@, p) {
                        lemma_checksum_field(p);
                        let k = checksum_field(p).len() as int;
                        if t < k {
                            assert(line@[t as int] == checksum_field(p)[t as int]);
                        } else if k < t {
                            assert(line@.subrange(0, t as int)[k] == tab());
                        } else {
                            assert(line@ == checksum_field(p) + seq![tab()] + p);
                            assert(line@[j as int] == p[j - t - 1]);
                            assert(p[j - t - 1] != tab());
                        }
                    }
                }
            }
            return None;
        }
        j = j + 1;
        assert forall|i: int| 0 <= i < j - t - 1 implies #[trigger] line@.subrange(t + 1, j as int)[i] != tab() by {
            if i < j - t - 2 {
                assert(line@.subrange(t + 1, j as int)[i] == line@.subrange(t + 1, j - 1)[i]);
            }
        }
    }
    let p = copy_range(line, t + 1, n);
    let h = hash_entry(p.as_slice());
    let hb = h.as_str().as_bytes();
    proof {
        assert(line@.subrange(t + 1, n as int) =~= p@);
    }
    let mut same = hb.len() == t;
    let mut k: usize = 0;
    while same && k < t
        invariant
            k <= t < n == line@.len(),
            same ==> hb@.len() == t,
            same ==> forall|i: int| 0 <= i < k ==> hb@[i] == line@[i],
            !same ==> hb@ != line@.subrange(0, t as int),
        decreases t - k + (if same { 1int } else { 0 }),
    {
        if hb[k] != line[k] {
            same = false;
            assert(hb@[k as int] != line@.subrange(0, t as int)[k as int]);
        } else {
            k = k + 1;
        }
    }
    if !same {
        proof {
            assert forall|q: Seq<u8>| !is_record(line@, q) by {
                if is_record(line@, q) {
                    lemma_checksum_field(q);
                    let m = checksum_field(q).len() as int;
                    if t < m {
                        assert(line@[t as int] == checksum_field(q)[t as int]);
                    } else if m < t {
                        assert(line@.subrange(0, t as int)[m] == tab());
                    } else {
                        assert(q =~= line@.subrange(t + 1, n as int));
                        assert(checksum_field(q) =~= line@.subrange(0, t as int));
                    }
                }
            }
        }
        return None;
    }
    proof {
        assert(hb@ =~= line@.subrange(0, t as int));
        assert(line@ =~= checksum_field(p@) + seq![tab()] + p@);
        assert forall|i: int| 0 <= i < p@.len() implies #[trigger] p@[i] != tab() by {
            assert(p@[i] == line@.subrange(t + 1, n as int)[i]);
        }
    }
    Some(p)
}

/// Cutting `s`, a newline, and a newline-free `x` gives the lines of `s` and then `x`.
pub proof fn lemma_split_after_newline(s: Seq<u8>, x: Seq<u8>)
    requires
        free_of(x, newline()),
    ensures
        split_lines(s + seq![newline()] + x) == split_lines(s).push(x),
    decreases x.len(),
{
    let whole = s + seq![newline()] + x;
    if x.len() == 0 {
        assert(whole =~= s + seq![newline()]);
        assert(whole.drop_last() =~= s);
        assert(whole.last() == newline());
        assert(x =~= Seq::<u8>::empty());
    } else {
        let y = x.drop_last();
        assert(free_of(y, newline())) by {
            assert forall|i: int| 0 <= i < y.len() implies #[trigger] y[i] != newline() by {
                assert(y[i] == x[i]);
            }
        }
        lemma_split_after_newline(s, y);
        assert(whole.drop_last() =~= s + seq![newline()] + y);
        assert(whole.last() == x.last());
        assert(x.last() == x[x.len() - 1]);
        assert(x.last() != newline());
        assert(y.push(x.last()) =~= x);
        lemma_split_lines_nonempty(s);
        let prev = split_lines(s).push(y);
        assert(split_lines(whole.drop_last()) == prev);
        assert(prev.last() == y);
        assert(prev.len() - 1 == split_lines(s).len());
        assert(split_lines(whole) == prev.update(prev.len() - 1, prev.last().push(whole.last())));
        assert(split_lines(s).push(y).update(split_lines(s).len() as int, y.push(x.last()))
            =~= split_lines(s).push(x));
    }
}

/// A sound record line yields its payload.
pub proof fn lemma_record_payload(p: Seq<u8>)
    requires
        free_of(p, tab()),
    ensures
        line_payload(checksum_field(p) + seq![tab()] + p) == Some(p),
{
    let line = checksum_field(p) + seq![tab()] + p;
    assert(is_record(line, p));
    let q = choose|q: Seq<u8>| is_record(line, q);
    lemma_record_unique(line, p, q);
}

/// Appending the framed line of a payload free of tabs and newlines adds
/// exactly that payload to what the bucket reads back; earlier records,
/// sound or not, read back as before.
pub proof fn lemma_append_then_read(content: Seq<u8>, p: Seq<u8>)
    requires
        free_of(p, tab()),
        free_of(p, newline()),
    ensures
        payloads_of(content + framed(p)) == payloads_of(content).push(p),
{
    let line = checksum_field(p) + seq![tab()] + p;
    lemma_checksum_field(p);
    assert(free_of(line, newline())) by {
        assert forall|i: int| 0 <= i < line.len() implies #[trigger] line[i] != newline() by {
            if i < checksum_field(p).len() {
                assert(line[i] == checksum_field(p)[i]);
            } else if i > checksum_field(p).len() {
                assert(line[i] == p[i - checksum_field(p).len() - 1]);
            }
        }
    }
    assert(content + framed(p) =~= content + seq![newline()] + line);
    lemma_split_after_newline(content, line);
    lemma_record_payload(p);
    let ls = split_lines(content).push(line);
    assert(ls.drop_last() =~= split_lines(content));
}

/// The bytes of a bucket that received the framed lines of `ps`, in order.
pub open spec fn framed_all(ps: Seq<Seq<u8>>) -> Seq<u8>
    decreases ps.len(),
{
    if ps.len() == 0 {
        Seq::empty()
    } else {
        framed_all(ps.drop_last()) + framed(ps.last())
    }
}

/// An empty bucket holds no record.
pub proof fn lemma_empty_bucket()
    ensures
        payloads_of(Seq::empty()) == Seq::<Seq<u8>>::empty(),
{
    let empty = Seq::<u8>::empty();
    assert(split_lines(empty) == seq![empty]);
    assert(line_payload(empty) is None) by {
        if exists|q: Seq<u8>| is_record(empty, q) {
            let q = choose|q: Seq<u8>| is_record(empty, q);
            assert((checksum_field(q) + seq![tab()] + q).len() >= 1);
        }
    }
    assert(split_lines(empty).drop_last() =~= Seq::<Seq<u8>>::empty());
    assert(payloads_in(Seq::<Seq<u8>>::empty()) == Seq::<Seq<u8>>::empty());
    assert(split_lines(empty).last() == empty);
}

/// A bucket written only by appends reads back every payload appended, in
/// the order of the appends.
pub proof fn lemma_appends_read_in_order(ps: Seq<Seq<u8>>)
    requires
        forall|i: int| 0 <= i < ps.len() ==> free_of(#[trigger] ps[i], tab()) && free_of(ps[i], newline()),
    ensures
        payloads_of(framed_all(ps)) == ps,
    decreases ps.len(),
{
    if ps.len() == 0 {
        lemma_empty_bucket();
        assert(ps =~= Seq::<Seq<u8>>::empty());
    } else {
        let init = ps.drop_last();
        assert forall|i: int| 0 <= i < init.len() implies free_of(#[trigger] init[i], tab()) && free_of(init[i], newline()) by {
            assert(init[i] == ps[i]);
        }
        lemma_appends_read_in_order(init);
        assert(ps.last() == ps[ps.len() - 1]);
        lemma_append_then_read(framed_all(init), ps.last());
        assert(init.push(ps.last()) =~= ps);
    }
}

/// A bucket holding one sound record and then a line that is no record (a
/// checksum that does not match, say) reads back as that record's payload alone.
pub proof fn lemma_corrupt_line_dropped(p: Seq<u8>, bad: Seq<u8>)
    requires
        free_of(p, tab()),
        free_of(p, newline()),
        free_of(bad, newline()),
        line_payload(bad) is None,
    ensures
        payloads_of(framed(p) + seq![newline()] + bad) == seq![p],
{
    let empty = Seq::<u8>::empty();
    lemma_empty_bucket();
    lemma_append_then_read(empty, p);
    assert(empty + framed(p) =~= framed(p));
    lemma_split_after_newline(framed(p), bad);
    let ls = split_lines(framed(p)).push(bad);
    assert(ls.drop_last() =~= split_lines(framed(p)));
    assert(Seq::<Seq<u8>>::empty().push(p) =~= seq![p]);
}

pub open spec fn views(v: Seq<Vec<u8>>) -> Seq<Seq<u8>> {
    v.map_values(|b: Vec<u8>| b@)
}

/// Decodes `line` and keeps its payload, if any, at the end of `out`.
fn keep_payload(out: &mut Vec<Vec<u8>>, line: &[u8])
    ensures
        views(final(out)@) == match line_payload(line@) {
            Some(p) => views(old(out)@).push(p),
            None => views(old(out)@),
        },
{
    match decode_line(line) {
        Some(p) => {
            proof {
                let q = choose|q: Seq<u8>| is_record(line@, q);
                lemma_record_unique(line@, p@, q);
            }
            out.push(p);
            assert(views(out@) =~= views(old(out)@).push(p@));
        },
        None => {},
    }
}

/// The payloads of the sound records of a bucket's content, in file order;
/// every other line is passed over.
pub fn bucket_payloads(content: &[u8]) -> (r: Vec<Vec<u8>>)
    ensures
        views(r@) == payloads_of(content@),
{
    let n = content.len();
    let mut out: Vec<Vec<u8>> = Vec::new();
    let mut start: usize = 0;
    let mut i: usize = 0;
    proof {
        assert(content@.subrange(0, 0) =~= Seq::<u8>::empty());
        assert(views(out@) =~= Seq::<Seq<u8>>::empty());
    }
    while i < n
        invariant
            start <= i <= n == content@.len(),
            split_lines(content@.subrange(0, i as int)).len() >= 1,
            split_lines(content@.subrange(0, i as int)).last() == content@.subrange(
                start as int,
                i as int,
            ),
            views(out@) == payloads_in(split_lines(content@.subrange(0, i as int)).drop_last()),
        decreases n - i,
    {
        let ghost before = split_lines(content@.subrange(0, i as int));
        proof {
            assert(content@.subrange(0, i + 1).drop_last() =~= content@.subrange(0, i as int));
            assert(content@.subrange(0, i + 1).last() == content@[i as int]);
        }
        if content[i] == 10u8 {
            let line = copy_range(content, start, i);
            keep_payload(&mut out, line.as_slice());
            proof {
                let after = split_lines(content@.subrange(0, i + 1));
                assert(after == before.push(Seq::empty()));
                assert(after.drop_last() =~= before);
                assert(before.drop_last().push(before.last()) =~= before);
                assert(content@.subrange(i + 1, i + 1) =~= Seq::<u8>::empty());
            }
            start = i + 1;
        } else {
            proof {
                let after = split_lines(content@.subrange(0, i + 1));
                assert(after.drop_last() =~= before.drop_last());
                assert(after.last() =~= content@.subrange(start as int, i + 1));
            }
        }
        i = i + 1;
    }
    let line = copy_range(content, start, n);
    keep_payload(&mut out, line.as_slice());
    proof {
        let all = split_lines(content@.subrange(0, n as int));
        assert(content@.subrange(0, n as int) =~= content@);
        assert(all.drop_last().push(all.last()) =~= all);
    }
    out
}

} // verus!
