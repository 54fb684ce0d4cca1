//! The index operations over a bucket's decoded records: which record is
//! current for a key, which keys are live, and what `insert` and `delete`
//! append.
use vstd::prelude::*;
use vstd::string::*;

verus! {

/// Whether a text parses as an integrity handle (`<algorithm>-<digest>`).
pub uninterp spec fn integrity_parses(s: Seq<char>) -> bool;

/// Relies on `<ssri::Integrity as FromStr>::from_str`: whether the text parses.
#[verifier::external_body]
fn parses_as_integrity(s: &str) -> (r: bool)
    ensures
        r == integrity_parses(s@),
{
    s.parse::<ssri::Integrity>().is_ok()
}

/// A cache index entry, pointing to content by its integrity handle.
/// `metadata` is the JSON text of the entry's free-form metadata.
#[derive(Clone, Debug, PartialEq, Eq)]
pub struct Entry {
    pub key: String,
    pub integrity: String,
    pub time: u128,
    pub size: usize,
    pub metadata: String,
}

pub struct EntryView {
    pub key: Seq<char>,
    pub integrity: Seq<char>,
    pub time: u128,
    pub size: usize,
    pub metadata: Seq<char>,
}

impl View for Entry {
    type V = EntryView;

    open spec fn view(&self) -> EntryView {
        EntryView {
            key: self.key@,
            integrity: self.integrity@,
            time: self.time,
            size: self.size,
            metadata: self.metadata@,
        }
    }
}

/// One record of a bucket; a record without integrity is a tombstone.
#[derive(Clone, Debug, PartialEq, Eq)]
pub struct SerializableEntry {
    pub key: String,
    pub integrity: Option<String>,
    pub time: u128,
    pub size: usize,
    pub metadata: String,
}

pub struct RecordView {
    pub key: Seq<char>,
    pub integrity: Option<Seq<char>>,
    pub time: u128,
    pub size: usize,
    pub metadata: Seq<char>,
}

pub open spec fn opt_view(o: Option<String>) -> Option<Seq<char>> {
    match o {
        Some(s) => Some(s@),
        None => None,
    }
}

impl View for SerializableEntry {
    type V = RecordView;

    open spec fn view(&self) -> RecordView {
        RecordView {
            key: self.key@,
            integrity: opt_view(self.integrity),
            time: self.time,
            size: self.size,
            metadata: self.metadata@,
        }
    }
}

pub open spec fn records_view(s: Seq<SerializableEntry>) -> Seq<RecordView> {
    s.map_values(|r: SerializableEntry| r@)
}

pub open spec fn entries_view(s: Seq<Entry>) -> Seq<EntryView> {
    s.map_values(|e: Entry| e@)
}

pub open spec fn found_view(o: Option<Entry>) -> Option<EntryView> {
    match o {
        Some(e) => Some(e@),
        None => None,
    }
}

/// The entry a record stands for, given whether its integrity text parses.
pub open spec fn entry_with(r: RecordView, integrity_ok: bool) -> Option<EntryView> {
    match r.integrity {
        Some(i) => if integrity_ok {
            Some(
                EntryView {
                    key: r.key,
                    integrity: i,
                    time: r.time,
                    size: r.size,
                    metadata: r.metadata,
                },
            )
        } else {
            None
        },
        None => None,
    }
}

/// The entry a record stands for: none for a tombstone or an unparsable handle.
pub open spec fn entry_of(r: RecordView) -> Option<EntryView> {
    match r.integrity {
        Some(i) => entry_with(r, integrity_parses(i)),
        None => None,
    }
}

/// The last record for `key`, in file order.
pub open spec fn last_for_key(recs: Seq<RecordView>, key: Seq<char>) -> Option<RecordView>
    decreases recs.len(),
{
    if recs.len() == 0 {
        None
    } else if recs.last().key == key {
        Some(recs.last())
    } else {
        last_for_key(recs.drop_last(), key)
    }
}

/// What `find` answers for `key` over a bucket's records.
pub open spec fn find_spec(recs: Seq<RecordView>, key: Seq<char>) -> Option<EntryView> {
    match last_for_key(recs, key) {
        Some(r) => entry_of(r),
        None => None,
    }
}

/// Whether a record for `key` stands in `recs`.
pub open spec fn has_key(recs: Seq<RecordView>, key: Seq<char>) -> bool {
    exists|j: int| 0 <= j < recs.len() && #[trigger] recs[j].key == key
}

/// The live entries of a bucket: for each key its last record, unless that
/// is a tombstone or its handle does not parse; in order of those records.
pub open spec fn survivors(recs: Seq<RecordView>) -> Seq<EntryView>
    decreases recs.len(),
{
    if recs.len() == 0 {
        Seq::empty()
    } else {
        let rest = recs.drop_first();
        let mine = if has_key(rest, recs[0].key) {
            Seq::empty()
        } else {
            match entry_of(recs[0]) {
                Some(e) => seq![e],
                None => Seq::empty(),
            }
        };
        mine + survivors(rest)
    }
}

/// Options of an insertion; what is left `None` takes its default.
/// `metadata` is JSON text; `uid` and `gid` are the ownership to give to
/// newly created paths.
#[derive(Clone, Debug, PartialEq, Eq)]
pub struct PutOpts {
    pub sri: Option<String>,
    pub size: Option<usize>,
    pub time: Option<u128>,
    pub metadata: Option<String>,
    pub uid: Option<u32>,
    pub gid: Option<u32>,
}

/// The record that inserting `key` with `opts` appends, `now` being the
/// wall-clock time in milliseconds.
pub open spec fn record_for(key: Seq<char>, opts: PutOpts, now: u128) -> RecordView {
    RecordView {
        key: key,
        integrity: opt_view(opts.sri),
        time: match opts.time {
            Some(t) => t,
            None => now,
        },
        size: match opts.size {
            Some(n) => n,
            None => 0,
        },
        metadata: match opts.metadata {
            Some(m) => m@,
            None => "null"@,
        },
    }
}

/// The handle that `insert` reports: the one given, or a placeholder.
pub open spec fn reported_integrity(opts: PutOpts) -> Seq<char> {
    match opts.sri {
        Some(s) => s@,
        None => "sha1-deadbeef"@,
    }
}

/// The options with every field left to its default.
pub open spec fn no_opts() -> PutOpts {
    PutOpts { sri: None, size: None, time: None, metadata: None, uid: None, gid: None }
}

impl PutOpts {
    pub fn new() -> (r: PutOpts)
        ensures
            r == no_opts(),
    {
        PutOpts { sri: None, size: None, time: None, metadata: None, uid: None, gid: None }
    }

    pub fn integrity(self, sri: String) -> (r: PutOpts)
        ensures
            r == (PutOpts { sri: Some(sri), ..self }),
    {
        PutOpts { sri: Some(sri), ..self }
    }

    pub fn time(self, time: u128) -> (r: PutOpts)
        ensures
            r == (PutOpts { time: Some(time), ..self }),
    {
        PutOpts { time: Some(time), ..self }
    }

    pub fn size(self, size: usize) -> (r: PutOpts)
        ensures
            r == (PutOpts { size: Some(size), ..self }),
    {
        PutOpts { size: Some(size), ..self }
    }

    pub fn metadata(self, metadata: String) -> (r: PutOpts)
        ensures
            r == (PutOpts { metadata: Some(metadata), ..self }),
    {
        PutOpts { metadata: Some(metadata), ..self }
    }

    pub fn uid(self, uid: u32) -> (r: PutOpts)
        ensures
            r == (PutOpts { uid: Some(uid), ..self }),
    {
        PutOpts { uid: Some(uid), ..self }
    }

    pub fn gid(self, gid: u32) -> (r: PutOpts)
        ensures
            r == (PutOpts { gid: Some(gid), ..self }),
    {
        PutOpts { gid: Some(gid), ..self }
    }
}

/// The record to append for an insertion of `key`, and the integrity handle
/// to report: the given one, or the placeholder `sha1-deadbeef`.
pub fn insert(key: &str, opts: PutOpts, now: u128) -> (r: (SerializableEntry, String))
    ensures
        r.0@ == record_for(key@, opts, now),
        r.1@ == reported_integrity(opts),
{
    let reported = match &opts.sri {
        Some(s) => s.clone(),
        None => String::from_str("sha1-deadbeef"),
    };
    let rec = SerializableEntry {
        key: String::from_str(key),
        integrity: opts.sri,
        time: match opts.time {
            Some(t) => t,
            None => now,
        },
        size: match opts.size {
            Some(n) => n,
            None => 0,
        },
        metadata: match opts.metadata {
            Some(m) => m,
            None => String::from_str("null"),
        },
    };
    (rec, reported)
}

/// The tombstone to append to delete `key`: an insertion with no option given.
pub fn delete(key: &str, now: u128) -> (r: SerializableEntry)
    ensures
        r@ == record_for(key@, no_opts(), now),
        r@.integrity is None,
{
    insert(key, PutOpts::new(), now).0
}

/// The entry that `rec` stands for, `integrity_ok` telling whether its
/// integrity text parses as a handle.
pub fn entry_from_record(rec: &SerializableEntry, integrity_ok: bool) -> (r: Option<Entry>)
    ensures
        found_view(r) == entry_with(rec@, integrity_ok),
{
    match &rec.integrity {
        Some(i) => if integrity_ok {
            Some(
                Entry {
                    key: rec.key.clone(),
                    integrity: i.clone(),
                    time: rec.time,
                    size: rec.size,
                    metadata: rec.metadata.clone(),
                },
            )
        } else {
            None
        },
        None => None,
    }
}

/// The entry that `rec` stands for, if it is not a tombstone and its
/// integrity handle parses.
pub fn to_entry(rec: &SerializableEntry) -> (r: Option<Entry>)
    ensures
        found_view(r) == entry_of(rec@),
{
    match &rec.integrity {
        Some(i) => {
            let ok = parses_as_integrity(i.as_str());
            entry_from_record(rec, ok)
        },
        None => None,
    }
}

/// The current entry for `key` among a bucket's records (in file order):
/// the last record for the key decides, a tombstone meaning "not found".
pub fn find(records: &Vec<SerializableEntry>, key: &str) -> (r: Option<Entry>)
    ensures
        found_view(r) == find_spec(records_view(records@), key@),
{
    let k = String::from_str(key);
    let ghost rv = records_view(records@);
    let mut i: usize = records.len();
    proof {
        assert(rv.subrange(0, i as int) =~= rv);
    }
    while i > 0
        invariant
            i <= records@.len(),
            rv == records_view(records@),
            k@ == key@,
            last_for_key(rv, key@) == last_for_key(rv.subrange(0, i as int), key@),
        decreases i,
    {
        proof {
            assert(rv.subrange(0, i as int).drop_last() =~= rv.subrange(0, i - 1));
        }
        i = i - 1;
        proof {
            assert(rv[i as int] == records@[i as int]@);
        }
        if records[i].key == k {
            return to_entry(&records[i]);
        }
    }
    None
}

/// The live entries of one bucket: records collapsed by key, the last one
/// winning, with tombstones and unparsable handles left out.
pub fn ls(records: &Vec<SerializableEntry>) -> (r: Vec<Entry>)
    ensures
        entries_view(r@) == survivors(records_view(records@)),
{
    let ghost rv = records_view(records@);
    let n = records.len();
    let mut out: Vec<Entry> = Vec::new();
    let mut i: usize = 0;
    proof {
        assert(rv.subrange(0, n as int) =~= rv);
        assert(entries_view(out@) =~= Seq::<EntryView>::empty());
    }
    while i < n
        invariant
            i <= n == records@.len(),
            rv == records_view(records@),
            entries_view(out@) + survivors(rv.subrange(i as int, n as int)) == survivors(rv),
        decreases n - i,
    {
        let ghost tail = rv.subrange(i as int, n as int);
        proof {
            assert(tail.drop_first() =~= rv.subrange(i + 1, n as int));
        }
        let mut later = false;
        let mut j: usize = i + 1;
        while j < n
            invariant
                i < j <= n == records@.len(),
                rv == records_view(records@),
                tail == rv.subrange(i as int, n as int),
                later == exists|m: int| i < m < j && #[trigger] rv[m].key == rv[i as int].key,
            decreases n - j,
        {
            proof {
                assert(rv[j as int] == records@[j as int]@);
                assert(rv[i as int] == records@[i as int]@);
            }
            let same = records[j].key == records[i].key;
            if same {
                later = true;
            }
            proof {
                if same {
                    assert(i < j < j + 1 && rv[j as int].key == rv[i as int].key);
                } else {
                    assert forall|m: int| i < m < j + 1 && #[trigger] rv[m].key == rv[i as int].key implies i
                        < m < j by {}
                }
            }
            j = j + 1;
        }
        proof {
            let rest = tail.drop_first();
            if later {
                let m = choose|m: int| i < m < n && #[trigger] rv[m].key == rv[i as int].key;
                assert(rest[m - i - 1].key == tail[0].key);
            } else {
                assert forall|m: int| 0 <= m < rest.len() implies #[trigger] rest[m].key != tail[0].key by {
                    assert(rest[m] == rv[m + i + 1]);
                }
            }
        }
        let ghost before = out@;
        if !later {
            match to_entry(&records[i]) {
                Some(e) => {
                    out.push(e);
                },
                None => {},
            }
        }
        proof {
            let rest = tail.drop_first();
            assert(entries_view(out@) + survivors(rest) =~= entries_view(before) + survivors(tail));
        }
        i = i + 1;
    }
    proof {
        assert(survivors(rv.subrange(n as int, n as int)) =~= Seq::<EntryView>::empty());
        assert(entries_view(out@) + Seq::<EntryView>::empty() =~= entries_view(out@));
    }
    out
}

/// Inserting a key with a parsable integrity handle and then finding it
/// gives back the handle, time, size and metadata that were inserted,
/// whatever the bucket held before.
pub proof fn lemma_insert_then_find(
    recs: Seq<RecordView>,
    key: Seq<char>,
    opts: PutOpts,
    now: u128,
)
    requires
        opts.sri is Some,
        integrity_parses(opts.sri.unwrap()@),
    ensures
        find_spec(recs.push(record_for(key, opts, now)), key) == Some(
            EntryView {
                key: key,
                integrity: opts.sri.unwrap()@,
                time: record_for(key, opts, now).time,
                size: record_for(key, opts, now).size,
                metadata: record_for(key, opts, now).metadata,
            },
        ),
{
}

/// Inserting a key with no integrity handle and then finding it gives
/// "not found".
pub proof fn lemma_tombstone_hides(recs: Seq<RecordView>, key: Seq<char>, opts: PutOpts, now: u128)
    requires
        opts.sri is None,
    ensures
        find_spec(recs.push(record_for(key, opts, now)), key) is None,
{
}

/// Of two insertions of one key, the later one is what `find` answers.
pub proof fn lemma_last_write_wins(
    recs: Seq<RecordView>,
    key: Seq<char>,
    a: PutOpts,
    ta: u128,
    b: PutOpts,
    tb: u128,
)
    ensures
        find_spec(recs.push(record_for(key, a, ta)).push(record_for(key, b, tb)), key)
            == entry_of(record_for(key, b, tb)),
{
}

/// After inserting `k1` and `k2` (with parsable handles) and deleting `k1`,
/// listing the bucket gives the entry of `k2` alone.
pub proof fn lemma_list_after_delete(
    k1: Seq<char>,
    a: PutOpts,
    ta: u128,
    k2: Seq<char>,
    b: PutOpts,
    tb: u128,
    td: u128,
)
    requires
        k1 != k2,
        a.sri is Some,
        integrity_parses(a.sri.unwrap()@),
        b.sri is Some,
        integrity_parses(b.sri.unwrap()@),
    ensures
        survivors(
            seq![record_for(k1, a, ta), record_for(k2, b, tb), record_for(k1, no_opts(), td)],
        ) == seq![entry_of(record_for(k2, b, tb)).unwrap()],
        entry_of(record_for(k2, b, tb)).unwrap().key == k2,
{
    let ra = record_for(k1, a, ta);
    let rb = record_for(k2, b, tb);
    let rd = record_for(k1, no_opts(), td);
    let all = seq![ra, rb, rd];
    let tail = seq![rb, rd];
    let last = seq![rd];
    assert(all.drop_first() =~= tail);
    assert(tail.drop_first() =~= last);
    assert(last.drop_first() =~= Seq::<RecordView>::empty());
    assert(has_key(tail, k1)) by {
        assert(tail[1].key == k1);
    }
    assert(!has_key(last, k2));
    assert(!has_key(Seq::<RecordView>::empty(), k1));
    assert(survivors(Seq::<RecordView>::empty()) == Seq::<EntryView>::empty());
    assert(survivors(last) =~= Seq::<EntryView>::empty());
    assert(survivors(tail) =~= seq![entry_of(rb).unwrap()]);
    assert(survivors(all) =~= seq![entry_of(rb).unwrap()]);
}

} // verus!
