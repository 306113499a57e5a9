//! The store: its index, its segments and the operations on them.

use std::collections::HashMap;
use vstd::prelude::*;
use vstd::slice::slice_subrange;
use crate::error::KvsError;
use crate::index::{Index, Value};
use crate::record::{decode, decoding, encode, encoding, Decoded, Record, RecordView};
use crate::segment::{ascending, gen_fname, generations, get_gen_list, listing, segment_name};
use crate::utils::{overwritten, BufReaderWithPos, BufWriterWithPos, SeekFrom, Stream};

verus! {

broadcast use vstd::std_specs::hash::group_hash_axioms;

/// Whether the place `at` lies in one of the segments.
pub open spec fn located(segments: Map<u64, Seq<u8>>, at: Value) -> bool {
    segments.contains_key(at.gen) && at.pos + at.size <= segments[at.gen].len()
}

/// What the bytes at the place `at` decode to, taken alone.
pub open spec fn record_at(segments: Map<u64, Seq<u8>>, at: Value) -> Decoded {
    decoding(segments[at.gen].subrange(at.pos as int, at.pos + at.size))
}

/// Whether the place `at` lies in one of the segments and its bytes are,
/// taken alone, a `Set` record of `key`, no more and no less.
pub open spec fn holds(segments: Map<u64, Seq<u8>>, key: Seq<char>, at: Value) -> bool {
    located(segments, at) && (match record_at(segments, at) {
        Decoded::Item { record: RecordView::SetRecord { key: k, .. }, len } => k == key && len
            == at.size,
        _ => false,
    })
}

/// Whether the `len` bytes at offset `pos` of the segment `data` decode,
/// taken alone, to `record`. Only a `Set` record is asked to: the index
/// points at no other.
pub open spec fn stands_alone(data: Seq<u8>, pos: nat, record: RecordView, len: nat) -> bool {
    record is RemoveRecord || decoding(data.subrange(pos as int, (pos + len) as int)) == (
    Decoded::Item { record, len })
}

/// One record that the store wrote, with the offset and the length of its
/// bytes in the segment that takes the writes.
pub struct Written {
    pub record: RecordView,
    pub pos: nat,
    pub len: nat,
}

/// The store as mathematical values: the index, the bytes of each segment,
/// the generation that takes the writes, the index as it was when the store
/// was opened, and the records written since, in their order.
#[verifier::ext_equal]
pub struct StoreView {
    pub index: Map<Seq<char>, Value>,
    pub segments: Map<u64, Seq<u8>>,
    pub generation: u64,
    pub base: Map<Seq<char>, Value>,
    pub log: Seq<Written>,
}

/// The index that the written records `log` of generation `gen` make of
/// `base`, applied in their order.
pub open spec fn replay_log(base: Map<Seq<char>, Value>, gen: u64, log: Seq<Written>) -> Map<
    Seq<char>,
    Value,
>
    decreases log.len(),
{
    if log.len() == 0 {
        base
    } else {
        apply(
            replay_log(base, gen, log.drop_last()),
            log.last().record,
            Value { gen, pos: log.last().pos as u64, size: log.last().len as u64 },
        )
    }
}

/// The offset behind the last of the written records.
pub open spec fn log_end(log: Seq<Written>) -> nat {
    if log.len() == 0 {
        0
    } else {
        log.last().pos + log.last().len
    }
}

impl StoreView {
    /// The segment that takes the writes is there, and every place in the
    /// index holds a `Set` record of its key. That segment is the bytes of
    /// the written records, one behind the other from its start, each of
    /// which decodes, taken alone, to its record; and the index is what they
    /// make of the index that the store was opened with.
    pub open spec fn wf(self) -> bool {
        &&& self.segments.contains_key(self.generation)
        &&& forall|key: Seq<char>| #[trigger]
            self.index.contains_key(key) ==> holds(self.segments, key, self.index[key])
        &&& self.index == replay_log(self.base, self.generation, self.log)
        &&& self.active().len() == log_end(self.log)
        &&& self.active().len() <= usize::MAX
        &&& forall|i: int|
            0 <= i < self.log.len() ==> {
                let w = #[trigger] self.log[i];
                &&& w.pos == log_end(self.log.take(i))
                &&& w.pos + w.len <= self.active().len()
                &&& decoding(self.active().subrange(w.pos as int, (w.pos + w.len) as int)) == (
                Decoded::Item { record: w.record, len: w.len })
            }
    }

    /// The bytes of the segment that takes the writes.
    pub open spec fn active(self) -> Seq<u8> {
        self.segments[self.generation]
    }

    /// What a lookup of `key` gives: no value where the index has no place
    /// for it; else the value of the `Set` record that the bytes at its place
    /// decode to, and `Corruption` where they decode to nothing of the kind.
    pub open spec fn value(self, key: Seq<char>) -> Result<Option<Seq<char>>, KvsError> {
        if !self.index.contains_key(key) {
            Ok(None)
        } else {
            match record_at(self.segments, self.index[key]) {
                Decoded::Item { record: RecordView::SetRecord { value, .. }, .. } => Ok(
                    Some(value),
                ),
                _ => Err(KvsError::Corruption),
            }
        }
    }

    /// The bytes that a write of `record` appends, or why it appends none:
    /// `Io` where the record has no encoding, `Corruption` where its bytes do
    /// not decode back to it and to their own length, `Io` where the segment
    /// would outgrow what memory can address.
    pub open spec fn written(self, record: RecordView) -> Result<Seq<u8>, KvsError> {
        match encoding(record) {
            None => Err(KvsError::Io),
            Some(bytes) => if decoding(bytes) != (Decoded::Item { record, len: bytes.len() }) {
                Err(KvsError::Corruption)
            } else if self.active().len() + bytes.len() > usize::MAX {
                Err(KvsError::Io)
            } else {
                Ok(bytes)
            },
        }
    }

    /// The place that bytes appended now will have.
    pub open spec fn next_place(self, bytes: Seq<u8>) -> Value {
        Value { gen: self.generation, pos: self.active().len() as u64, size: bytes.len() as u64 }
    }

    /// The store with `bytes`, which stand for `record`, appended to the
    /// segment that takes the writes.
    pub open spec fn append(self, record: RecordView, bytes: Seq<u8>) -> StoreView {
        StoreView {
            segments: self.segments.insert(self.generation, self.active() + bytes),
            log: self.log.push(Written { record, pos: self.active().len(), len: bytes.len() }),
            ..self
        }
    }

    /// The store after a write of `record` that appended `bytes`: the bytes
    /// are in the segment, the record is in the log, and the index has taken
    /// the record.
    pub open spec fn write(self, record: RecordView, bytes: Seq<u8>) -> StoreView {
        StoreView {
            index: apply(self.index, record, self.next_place(bytes)),
            ..self.append(record, bytes)
        }
    }

    /// The store after `set(key, value)`, and what the call returns. A write
    /// that fails leaves the store as it was.
    pub open spec fn set(self, key: Seq<char>, value: Seq<char>) -> (StoreView, Result<(), KvsError>) {
        let record = RecordView::SetRecord { key, value };
        match self.written(record) {
            Err(e) => (self, Err(e)),
            Ok(bytes) => (self.write(record, bytes), Ok(())),
        }
    }

    /// The store after `remove(key)`, and what the call returns. The
    /// tombstone is appended before the index is asked: a key that is not
    /// there costs a record and gives `KeyNotFound`.
    pub open spec fn remove(self, key: Seq<char>) -> (StoreView, Result<(), KvsError>) {
        let record = RecordView::RemoveRecord { key };
        match self.written(record) {
            Err(e) => (self, Err(e)),
            Ok(bytes) => (
                self.write(record, bytes),
                if self.index.contains_key(key) {
                    Ok(())
                } else {
                    Err(KvsError::KeyNotFound)
                },
            ),
        }
    }
}

/// What a record at the place `at` of the log does to the index: a `Set`
/// makes `at` the place of its key, a `Remove` takes its key out.
pub open spec fn apply(index: Map<Seq<char>, Value>, record: RecordView, at: Value) -> Map<
    Seq<char>,
    Value,
> {
    match record {
        RecordView::SetRecord { key, .. } => index.insert(key, at),
        RecordView::RemoveRecord { key } => index.remove(key),
    }
}

/// How far the replay of a segment came: the index that the records made,
/// the offset at which it stopped, and whether it stopped at the end of the
/// records and not at bytes that are no record.
pub struct Replayed {
    pub index: Map<Seq<char>, Value>,
    pub end: nat,
    pub complete: bool,
}

/// The replay of the segment `data` of generation `gen` from offset `pos`
/// on: its records are applied to `index` in their order, up to the end of
/// the segment or to the first bytes that are no record. A `Set` record
/// whose bytes do not decode to it when taken alone counts as no record: a
/// lookup would not find it there.
pub open spec fn replay(index: Map<Seq<char>, Value>, gen: u64, data: Seq<u8>, pos: nat) -> Replayed
    decreases data.len() - pos,
{
    if pos >= data.len() {
        Replayed { index, end: pos, complete: true }
    } else {
        match decoding(data.subrange(pos as int, data.len() as int)) {
            Decoded::End => Replayed { index, end: pos, complete: true },
            Decoded::Corrupt => Replayed { index, end: pos, complete: false },
            Decoded::Item { record, len } => if stands_alone(data, pos, record, len) {
                replay(
                    apply(index, record, Value { gen, pos: pos as u64, size: len as u64 }),
                    gen,
                    data,
                    pos + len,
                )
            } else {
                Replayed { index, end: pos, complete: false }
            },
        }
    }
}

/// Replays the segment behind `reader`, of generation `gen`, into `index`,
/// and returns the offset at which its records end. Bytes that are no record
/// make it fail with `Corruption`; the index then holds what the records
/// before them made of it. Either way the reader is left where the replay
/// stopped.
pub fn load_file(gen: u64, index: &mut Index, reader: &mut BufReaderWithPos) -> (r: Result<
    u64,
    KvsError,
>)
    requires
        old(index).wf(),
    ensures
        final(index).wf(),
        final(reader)@ == old(reader)@,
        final(index)@ == replay(old(index)@, gen, old(reader)@, 0).index,
        final(reader).pos == replay(old(index)@, gen, old(reader)@, 0).end,
        final(reader).reader.offset == final(reader).pos,
        r == (if replay(old(index)@, gen, old(reader)@, 0).complete {
            Ok::<u64, KvsError>(replay(old(index)@, gen, old(reader)@, 0).end as u64)
        } else {
            Err::<u64, KvsError>(KvsError::Corruption)
        }),
{
    let len = reader.reader.data.len();
    let mut pos: usize = 0;
    let mut done = false;
    while !done && pos < len
        invariant
            pos <= len,
            len == reader@.len(),
            reader@ == old(reader)@,
            index.wf(),
            replay(index@, gen, reader@, pos as nat) == replay(old(index)@, gen, reader@, 0),
            done ==> replay(index@, gen, reader@, pos as nat) == (
            Replayed { index: index@, end: pos as nat, complete: true }),
        decreases (if done { 0int } else { 1int }), len - pos,
    {
        let input = slice_subrange(reader.reader.data.as_slice(), pos, len);
        match decode(input) {
            Err(e) => {
                let _ = reader.seek(SeekFrom::Start(pos as u64));
                return Err(e);
            },
            Ok(None) => {
                done = true;
            },
            Ok(Some((record, n))) => {
                let alone = match &record {
                    Record::RemoveRecord { .. } => true,
                    Record::SetRecord { .. } => match decode(
                        slice_subrange(reader.reader.data.as_slice(), pos, pos + n),
                    ) {
                        Ok(Some((back, len))) => len == n && same_record(&back, &record),
                        _ => false,
                    },
                };
                if !alone {
                    let _ = reader.seek(SeekFrom::Start(pos as u64));
                    return Err(KvsError::Corruption);
                }
                let at = Value { gen, pos: pos as u64, size: n as u64 };
                match record {
                    Record::SetRecord { key, value: _ } => {
                        index.insert(key, at);
                    },
                    Record::RemoveRecord { key } => {
                        index.remove(&key);
                    },
                }
                pos = pos + n;
            },
        }
    }
    let _ = reader.seek(SeekFrom::Start(pos as u64));
    Ok(pos as u64)
}

/// A write that succeeds leaves the store in order.
pub proof fn lemma_write_keeps_order(s: StoreView, record: RecordView)
    requires
        s.wf(),
        s.written(record) is Ok,
    ensures
        s.write(record, s.written(record)->Ok_0).wf(),
{
    let bytes = s.written(record)->Ok_0;
    let after = s.write(record, bytes);
    assert(after.log.drop_last() =~= s.log);
    assert(after.active() =~= s.active() + bytes);
    assert forall|i: int| 0 <= i < after.log.len() implies {
        let v = #[trigger] after.log[i];
        &&& v.pos == log_end(after.log.take(i))
        &&& v.pos + v.len <= after.active().len()
        &&& decoding(after.active().subrange(v.pos as int, (v.pos + v.len) as int)) == (
        Decoded::Item { record: v.record, len: v.len })
    } by {
        let v = after.log[i];
        if i < s.log.len() {
            assert(v == s.log[i]);
            assert(after.log.take(i) =~= s.log.take(i));
            assert(after.active().subrange(v.pos as int, (v.pos + v.len) as int) =~= s.active().subrange(
                v.pos as int,
                (v.pos + v.len) as int,
            ));
        } else {
            assert(after.log.take(i) =~= s.log);
            assert(after.active().subrange(v.pos as int, (v.pos + v.len) as int) =~= bytes);
        }
    }
    assert forall|key: Seq<char>| #[trigger] after.index.contains_key(key) implies holds(
        after.segments,
        key,
        after.index[key],
    ) by {
        let at = after.index[key];
        if s.index.contains_key(key) && at == s.index[key] {
            assert(holds(s.segments, key, at));
            if at.gen == s.generation {
                assert(after.segments[at.gen].subrange(at.pos as int, at.pos + at.size)
                    =~= s.segments[at.gen].subrange(at.pos as int, at.pos + at.size));
            }
        } else {
            assert(at == s.next_place(bytes));
            assert(after.segments[at.gen].subrange(at.pos as int, at.pos + at.size) =~= bytes);
        }
    }
}

/// The bytes of the first file of `dir` that has the name `name`.
pub open spec fn file_data(dir: Seq<(Seq<char>, Seq<u8>)>, name: Seq<char>) -> Option<Seq<u8>>
    decreases dir.len(),
{
    if dir.len() == 0 {
        None
    } else if dir[0].0 == name {
        Some(dir[0].1)
    } else {
        file_data(dir.drop_first(), name)
    }
}

/// The place among `files` of the first file named `fname`.
fn find_file(files: &Vec<(String, Vec<u8>)>, fname: &String) -> (r: Option<usize>)
    ensures
        match r {
            Some(i) => i < files@.len() && file_data(listing(files@), fname@) == Some(files@[i as int].1@),
            None => file_data(listing(files@), fname@) is None,
        },
{
    let ghost dir = listing(files@);
    let mut i: usize = 0;
    assert(dir.subrange(0, dir.len() as int) =~= dir);
    while i < files.len()
        invariant
            i <= files@.len(),
            dir == listing(files@),
            file_data(dir, fname@) == file_data(dir.subrange(i as int, dir.len() as int), fname@),
        decreases files@.len() - i,
    {
        let ghost rest = dir.subrange(i as int, dir.len() as int);
        assert(rest[0] == dir[i as int]);
        assert(rest.drop_first() =~= dir.subrange(i + 1, dir.len() as int));
        if files[i].0 == *fname {
            return Some(i);
        }
        i = i + 1;
    }
    None
}

/// Opens a read handle on the file named `fname` among `files`, at its
/// start. Fails with `Io` where there is no such file.
pub fn new_reader(files: &Vec<(String, Vec<u8>)>, fname: &String) -> (r: Result<
    BufReaderWithPos,
    KvsError,
>)
    ensures
        match file_data(listing(files@), fname@) {
            Some(data) => r is Ok && r->Ok_0@ == data && r->Ok_0.pos == 0
                && r->Ok_0.reader.offset == 0,
            None => r is Err && r->Err_0 == KvsError::Io,
        },
{
    match find_file(files, fname) {
        Some(i) => {
            let mut data: Vec<u8> = Vec::new();
            data.extend_from_slice(files[i].1.as_slice());
            Ok(BufReaderWithPos::new(Stream::new(data, 0)))
        },
        None => Err(KvsError::Io),
    }
}

/// Opens a write handle on the file named `fname` among `files`, or on a
/// new, empty one where there is no such file, and seeks to the offset
/// `pos`.
pub fn new_writer(files: &Vec<(String, Vec<u8>)>, fname: &String, pos: u64) -> (w: BufWriterWithPos)
    ensures
        w.writer.data@ == (match file_data(listing(files@), fname@) {
            Some(data) => data,
            None => Seq::<u8>::empty(),
        }),
        w.writer.offset == pos,
        w.buffer@ == Seq::<u8>::empty(),
        w.pos == pos,
{
    let mut data: Vec<u8> = Vec::new();
    match find_file(files, fname) {
        Some(i) => {
            data.extend_from_slice(files[i].1.as_slice());
        },
        None => {},
    }
    let end = data.len() as u64;
    let mut writer = BufWriterWithPos::new(Stream::new(data, end));
    assert(overwritten(writer.writer.data@, end as nat, writer.buffer@) =~= writer.writer.data@);
    let _ = writer.seek(SeekFrom::Start(pos));
    writer
}

/// The bytes behind each read handle.
pub open spec fn segments_of(readers: Map<u64, BufReaderWithPos>) -> Map<u64, Seq<u8>> {
    readers.map_values(|r: BufReaderWithPos| r@)
}

/// Opens the segment of generation `gen` for appending and registers a
/// fresh read handle on it, at its start. A segment that is not there yet is
/// made, empty; one that is there keeps its bytes. The write handle has the
/// bytes of the segment and stands at their end.
pub fn new_log_file(gen: u64, readers: &mut HashMap<u64, BufReaderWithPos>) -> (w: BufWriterWithPos)
    ensures
        final(readers)@.dom() == old(readers)@.dom().insert(gen),
        forall|g: u64| g != gen && old(readers)@.contains_key(g) ==> final(readers)@[g] == old(
            readers,
        )@[g],
        final(readers)@[gen]@ == (if old(readers)@.contains_key(gen) {
            old(readers)@[gen]@
        } else {
            Seq::<u8>::empty()
        }),
        final(readers)@[gen].pos == 0,
        final(readers)@[gen].reader.offset == 0,
        w.buffer@ == Seq::<u8>::empty(),
        w.writer.data@ == final(readers)@[gen]@,
        w.writer.offset == w.pos,
        w.pos == final(readers)@[gen]@.len(),
{
    let data: Vec<u8> = match readers.remove(&gen) {
        Some(reader) => reader.reader.data,
        None => Vec::new(),
    };
    let mut copy: Vec<u8> = Vec::new();
    copy.extend_from_slice(data.as_slice());
    let end = copy.len() as u64;
    let writer = BufWriterWithPos::new(Stream::new(copy, end));
    readers.insert(gen, BufReaderWithPos::new(Stream::new(data, 0)));
    assert(readers@.dom() =~= old(readers)@.dom().insert(gen));
    writer
}

/// The index after the segments of the generations `gens`, taken from
/// `dir` under the names that `gen_fname` gives them, were replayed into
/// `index` one after the other: `Io` for the first generation whose file is
/// not there, `Corruption` for the first segment that does not replay.
pub open spec fn replay_all(
    index: Map<Seq<char>, Value>,
    dir: Seq<(Seq<char>, Seq<u8>)>,
    gens: Seq<u64>,
) -> Result<Map<Seq<char>, Value>, KvsError>
    decreases gens.len(),
{
    if gens.len() == 0 {
        Ok(index)
    } else {
        match file_data(dir, segment_name(gens[0])) {
            None => Err(KvsError::Io),
            Some(data) => if replay(index, gens[0], data, 0).complete {
                replay_all(replay(index, gens[0], data, 0).index, dir, gens.drop_first())
            } else {
                Err(KvsError::Corruption)
            },
        }
    }
}

/// The segments of the generations `gens` as `dir` holds them.
pub open spec fn segments_in(dir: Seq<(Seq<char>, Seq<u8>)>, gens: Seq<u64>) -> Map<u64, Seq<u8>> {
    Map::new(|g: u64| gens.contains(g), |g: u64| file_data(dir, segment_name(g)).unwrap())
}

/// The generation that follows the last of `gens`: the first one where there
/// is none yet, none where the last one is the greatest number.
pub open spec fn next_generation(gens: Seq<u64>) -> Option<u64> {
    if gens.len() == 0 {
        Some(1)
    } else if gens.last() < u64::MAX {
        Some((gens.last() + 1) as u64)
    } else {
        None
    }
}

/// The store that opening the directory `dir` gives: the segments of `dir`
/// replayed in ascending order of generation, and a new, empty segment of the
/// next generation to take the writes. `InvalidDirectory` where no generation
/// is left for it.
pub open spec fn opened(dir: Seq<(Seq<char>, Seq<u8>)>) -> Result<StoreView, KvsError> {
    let gens = generations(dir);
    match replay_all(Map::empty(), dir, gens) {
        Err(e) => Err(e),
        Ok(index) => match next_generation(gens) {
            None => Err(KvsError::InvalidDirectory),
            Some(generation) => Ok(
                StoreView {
                    index,
                    segments: segments_in(dir, gens).insert(generation, Seq::empty()),
                    generation,
                    base: index,
                    log: Seq::empty(),
                },
            ),
        },
    }
}

/// Replaying a segment puts into the index only places that hold a `Set`
/// record of their key.
pub proof fn lemma_replay_holds(
    index: Map<Seq<char>, Value>,
    gen: u64,
    data: Seq<u8>,
    pos: nat,
    segments: Map<u64, Seq<u8>>,
)
    requires
        forall|key: Seq<char>| #[trigger]
            index.contains_key(key) ==> holds(segments, key, index[key]),
        segments.contains_key(gen),
        segments[gen] == data,
        data.len() <= u64::MAX,
    ensures
        forall|key: Seq<char>| #[trigger]
            replay(index, gen, data, pos).index.contains_key(key) ==> holds(
                segments,
                key,
                replay(index, gen, data, pos).index[key],
            ),
    decreases data.len() - pos,
{
    if pos < data.len() {
        match decoding(data.subrange(pos as int, data.len() as int)) {
            Decoded::Item { record, len } => {
                if stands_alone(data, pos, record, len) {
                    let at = Value { gen, pos: pos as u64, size: len as u64 };
                    assert(located(segments, at));
                    let next = apply(index, record, at);
                    assert forall|key: Seq<char>| #[trigger] next.contains_key(key) implies holds(
                        segments,
                        key,
                        next[key],
                    ) by {
                        if record is SetRecord && key == record.key() {
                            assert(next[key] == at);
                            assert(record_at(segments, at) == (Decoded::Item { record, len }));
                        } else {
                            assert(index.contains_key(key));
                        }
                    }
                    lemma_replay_holds(next, gen, data, pos + len, segments);
                    assert(replay(index, gen, data, pos) == replay(next, gen, data, pos + len));
                } else {
                    assert(replay(index, gen, data, pos).index == index);
                }
            },
            _ => {
                assert(replay(index, gen, data, pos).index == index);
            },
        }
    } else {
        assert(replay(index, gen, data, pos).index == index);
    }
}

/// A log-structured key-value store.
pub struct KvStore {
    index: Index,
    readers: HashMap<u64, BufReaderWithPos>,
    writer: BufWriterWithPos,
    current_gen: u64,
    base: Ghost<Map<Seq<char>, Value>>,
    log: Ghost<Seq<Written>>,
}

impl View for KvStore {
    type V = StoreView;

    closed spec fn view(&self) -> StoreView {
        StoreView {
            index: self.index@,
            segments: segments_of(self.readers@),
            generation: self.current_gen,
            base: self.base@,
            log: self.log@,
        }
    }
}

/// What a lookup returns, as mathematical values.
pub open spec fn lookup_view(r: Result<Option<String>, KvsError>) -> Result<
    Option<Seq<char>>,
    KvsError,
> {
    match r {
        Ok(Some(value)) => Ok(Some(value@)),
        Ok(None) => Ok(None),
        Err(e) => Err(e),
    }
}

/// Whether two records say the same.
fn same_record(a: &Record, b: &Record) -> (same: bool)
    ensures
        same == (a@ == b@),
{
    match a {
        Record::SetRecord { key, value } => match b {
            Record::SetRecord { key: other_key, value: other_value } => *key == *other_key
                && *value == *other_value,
            Record::RemoveRecord { .. } => false,
        },
        Record::RemoveRecord { key } => match b {
            Record::SetRecord { .. } => false,
            Record::RemoveRecord { key: other_key } => *key == *other_key,
        },
    }
}

impl KvStore {
    /// The handles fit the index and each other: nothing is buffered, and the
    /// write handle has the bytes that the read handle of its segment has
    /// and stands at their end.
    pub closed spec fn inv(&self) -> bool {
        &&& self.index.wf()
        &&& self.readers@.contains_key(self.current_gen)
        &&& self.writer.buffer@.len() == 0
        &&& self.writer.pos == self.writer.writer.offset
        &&& self.writer.writer.offset == self.writer.writer.data@.len()
        &&& self.writer.writer.data@ == self.readers@[self.current_gen]@
    }

    /// The store is in order.
    pub open spec fn wf(&self) -> bool {
        self.inv() && self@.wf()
    }

    /// The generation that takes the writes.
    pub fn current_gen(&self) -> (gen: u64)
        ensures
            gen == self@.generation,
    {
        self.current_gen
    }

    /// Opens the store on a directory, given as the names and the bytes of
    /// its files: replays its segments in ascending order of generation and
    /// starts a new segment, of the next generation, for the writes to come.
    pub fn open(files: &Vec<(String, Vec<u8>)>) -> (r: Result<KvStore, KvsError>)
        ensures
            match opened(listing(files@)) {
                Ok(store) => r is Ok && r->Ok_0.wf() && r->Ok_0@ == store,
                Err(e) => r is Err && r->Err_0 == e,
            },
    {
        let ghost dir = listing(files@);
        let mut index = Index::new();
        let mut readers: HashMap<u64, BufReaderWithPos> = HashMap::new();
        let gen_list = get_gen_list(files);
        let ghost gens = gen_list@;
        let n = gen_list.len();
        let mut i: usize = 0;
        assert(gens.subrange(0, n as int) =~= gens);
        assert(segments_of(readers@) =~= segments_in(dir, gens.subrange(0, 0)));
        while i < n
            invariant
                i <= n,
                n == gens.len(),
                gens == gen_list@,
                dir == listing(files@),
                gens == generations(dir),
                ascending(gens),
                index.wf(),
                replay_all(index@, dir, gens.subrange(i as int, n as int)) == replay_all(
                    Map::empty(),
                    dir,
                    gens,
                ),
                segments_of(readers@) == segments_in(dir, gens.subrange(0, i as int)),
                forall|g: u64| #[trigger]
                    readers@.contains_key(g) ==> readers@[g]@.len() <= usize::MAX,
                forall|key: Seq<char>| #[trigger]
                    index@.contains_key(key) ==> holds(segments_of(readers@), key, index@[key]),
            decreases n - i,
        {
            let gen = gen_list[i];
            let ghost rest = gens.subrange(i as int, n as int);
            assert(rest[0] == gen);
            assert(rest.drop_first() =~= gens.subrange(i + 1, n as int));
            let fname = gen_fname(gen);
            let mut reader = match new_reader(files, &fname) {
                Ok(reader) => reader,
                Err(e) => {
                    return Err(e);
                },
            };
            let ghost before = index@;
            let ghost segments_before = segments_of(readers@);
            proof {
                vstd::std_specs::vec::axiom_spec_len(&reader.reader.data);
            }
            match load_file(gen, &mut index, &mut reader) {
                Ok(_) => {},
                Err(e) => {
                    return Err(e);
                },
            }
            let ghost data = reader@;
            readers.insert(gen, reader);
            proof {
                assert(file_data(dir, segment_name(gen)) == Some(data));
                let done = gens.subrange(0, i as int);
                let done_next = gens.subrange(0, i + 1);
                assert(done_next =~= done.push(gen));
                assert forall|g: u64| done_next.contains(g) <==> (done.contains(g) || g == gen) by {
                    if done.contains(g) {
                        let j = choose|j: int| 0 <= j < done.len() && done[j] == g;
                        assert(done_next[j] == g);
                    }
                    if g == gen {
                        assert(done_next[i as int] == g);
                    }
                }
                assert(segments_of(readers@) =~= segments_before.insert(gen, data));
                assert(segments_of(readers@) =~= segments_in(dir, done_next));
                assert(!done.contains(gen)) by {
                    if done.contains(gen) {
                        let j = choose|j: int| 0 <= j < done.len() && done[j] == gen;
                        assert(gens[j] < gens[i as int]);
                    }
                }
                assert forall|key: Seq<char>| #[trigger] before.contains_key(key) implies holds(
                    segments_of(readers@),
                    key,
                    before[key],
                ) by {
                    assert(holds(segments_before, key, before[key]));
                }
                lemma_replay_holds(before, gen, data, 0, segments_of(readers@));
            }
            i = i + 1;
        }
        let current_gen: u64 = if n == 0 {
            1
        } else {
            let last = gen_list[n - 1];
            if last == u64::MAX {
                return Err(KvsError::InvalidDirectory);
            }
            last + 1
        };
        proof {
            assert(gens.subrange(i as int, n as int) =~= Seq::<u64>::empty());
            assert(gens.subrange(0, n as int) =~= gens);
            if readers@.contains_key(current_gen) {
                assert(segments_of(readers@).contains_key(current_gen));
                assert(gens.contains(current_gen));
                let j = choose|j: int| 0 <= j < gens.len() && gens[j] == current_gen;
                assert(gens[j] <= gens[n - 1]);
            }
        }
        let ghost segments_before = segments_of(readers@);
        let ghost readers_before = readers@;
        let writer = new_log_file(current_gen, &mut readers);
        let ghost base = index@;
        let store = KvStore {
            index,
            readers,
            writer,
            current_gen,
            base: Ghost(base),
            log: Ghost(Seq::empty()),
        };
        proof {
            let expected = segments_before.insert(current_gen, Seq::<u8>::empty());
            assert(store@.segments.dom() =~= expected.dom());
            assert forall|g: u64| store@.segments.contains_key(g) implies #[trigger] store@.segments[g]
                == expected[g] by {
                if g != current_gen {
                    assert(readers_before.contains_key(g));
                    assert(store.readers@[g] == readers_before[g]);
                }
            }
            assert(store@.segments =~= expected);
            assert forall|key: Seq<char>| #[trigger] store@.index.contains_key(key) implies holds(
                store@.segments,
                key,
                store@.index[key],
            ) by {
                assert(holds(segments_before, key, store@.index[key]));
            }
            assert(store@ =~= opened(dir)->Ok_0);
        }
        Ok(store)
    }

    /// The bytes of the segment of generation `gen`, where the store has it.
    pub fn segment(&self, gen: u64) -> (r: Option<Vec<u8>>)
        ensures
            match r {
                Some(bytes) => self@.segments.contains_key(gen) && bytes@ == self@.segments[gen],
                None => !self@.segments.contains_key(gen),
            },
    {
        match self.readers.get(&gen) {
            Some(reader) => {
                let mut bytes: Vec<u8> = Vec::new();
                bytes.extend_from_slice(reader.reader.data.as_slice());
                Some(bytes)
            },
            None => None,
        }
    }

    /// Appends `record` to the log and returns the place of a `Set` record,
    /// nothing for a `Remove`. Before any byte is written the encoding is
    /// decoded again: bytes that do not give the record back are refused with
    /// `Corruption`.
    fn write_record(&mut self, record: Record) -> (r: Result<Option<Value>, KvsError>)
        requires
            old(self).wf(),
        ensures
            final(self).inv(),
            match old(self)@.written(record@) {
                Err(e) => r == Err::<Option<Value>, KvsError>(e) && final(self)@ == old(self)@,
                Ok(bytes) => final(self)@ == old(self)@.append(record@, bytes) && r == Ok::<
                    Option<Value>,
                    KvsError,
                >(
                    match record@ {
                        RecordView::SetRecord { .. } => Some(old(self)@.next_place(bytes)),
                        RecordView::RemoveRecord { .. } => None,
                    },
                ),
            },
    {
        let pos = self.writer.pos;
        let bytes = match encode(&record) {
            Ok(bytes) => bytes,
            Err(e) => {
                return Err(e);
            },
        };
        let reads_back = match decode(bytes.as_slice()) {
            Ok(Some((back, len))) => len == bytes.len() && same_record(&back, &record),
            _ => false,
        };
        if !reads_back {
            return Err(KvsError::Corruption);
        }
        if bytes.len() > usize::MAX - self.writer.writer.data.len() {
            return Err(KvsError::Io);
        }
        match self.writer.write(bytes.as_slice()) {
            Ok(_) => {},
            Err(e) => {
                return Err(e);
            },
        }
        match self.writer.flush() {
            Ok(_) => {},
            Err(e) => {
                return Err(e);
            },
        }
        assert(old(self)@.active() == old(self).readers@[self.current_gen]@);
        assert(self.writer.writer.data@ =~= old(self)@.active() + bytes@);
        let mut reader = self.readers.remove(&self.current_gen).unwrap();
        reader.reader.data.extend_from_slice(bytes.as_slice());
        assert(reader@ =~= old(self)@.active() + bytes@);
        self.readers.insert(self.current_gen, reader);
        assert(self.readers@[self.current_gen]@ == self.writer.writer.data@);
        assert(self@.segments =~= old(self)@.segments.insert(
            self.current_gen,
            old(self)@.active() + bytes@,
        ));
        proof {
            self.log@ = self.log@.push(
                Written { record: record@, pos: old(self)@.active().len(), len: bytes@.len() },
            );
        }
        assert(self@ =~= old(self)@.append(record@, bytes@));
        Ok(
            match record {
                Record::SetRecord { .. } => Some(
                    Value { gen: self.current_gen, pos, size: self.writer.pos - pos },
                ),
                Record::RemoveRecord { .. } => None,
            },
        )
    }

    /// Looks `key` up: `Ok(None)` where it has no value, else the value of
    /// the `Set` record at its place. A key of the index whose bytes did not
    /// decode to a `Set` record would give `Corruption`; in a store in order
    /// there is none.
    pub fn get(&mut self, key: String) -> (r: Result<Option<String>, KvsError>)
        requires
            old(self).wf(),
        ensures
            final(self).wf(),
            final(self)@ == old(self)@,
            lookup_view(r) == old(self)@.value(key@),
            r is Ok,
            r->Ok_0 is Some <==> old(self)@.index.contains_key(key@),
    {
        match self.index.get(&key) {
            None => Ok(None),
            Some(at) => {
                assert(self@.index.contains_key(key@));
                assert(holds(self@.segments, key@, at));
                assert(self@.segments[at.gen] == self.readers@[at.gen]@);
                let mut reader = self.readers.remove(&at.gen).unwrap();
                proof {
                    vstd::std_specs::vec::axiom_spec_len(&reader.reader.data);
                }
                let mut buf: Vec<u8> = vec![0u8; at.size as usize];
                let read = match reader.seek(SeekFrom::Start(at.pos)) {
                    Ok(_) => reader.read(buf.as_mut_slice()),
                    Err(e) => Err(e),
                };
                assert(read is Ok);
                assert(buf@ =~= reader@.subrange(at.pos as int, at.pos + at.size));
                self.readers.insert(at.gen, reader);
                assert(self@ =~= old(self)@);
                match (read, decode(buf.as_slice())) {
                    (Ok(_), Ok(Some((Record::SetRecord { key: _, value }, _)))) => Ok(Some(value)),
                    (Err(e), _) => Err(e),
                    _ => Err(KvsError::Corruption),
                }
            },
        }
    }

    /// Sets the value of `key`: appends a `Set` record and makes its place
    /// the place of `key` in the index.
    pub fn set(&mut self, key: String, value: String) -> (r: Result<(), KvsError>)
        requires
            old(self).wf(),
        ensures
            final(self).wf(),
            final(self)@ == old(self)@.set(key@, value@).0,
            r == old(self)@.set(key@, value@).1,
    {
        let record = Record::SetRecord { key: key.clone(), value };
        match self.write_record(record) {
            Err(e) => Err(e),
            Ok(None) => Err(KvsError::Corruption),
            Ok(Some(at)) => {
                self.index.insert(key, at);
                proof {
                    let record = RecordView::SetRecord { key: key@, value: value@ };
                    lemma_write_keeps_order(old(self)@, record);
                    assert(self@ =~= old(self)@.write(record, old(self)@.written(record)->Ok_0));
                }
                Ok(())
            },
        }
    }

    /// Removes `key`: appends a `Remove` record and takes `key` out of the
    /// index. Fails with `KeyNotFound`, the record written, where the index
    /// did not hold `key`.
    pub fn remove(&mut self, key: String) -> (r: Result<(), KvsError>)
        requires
            old(self).wf(),
        ensures
            final(self).wf(),
            final(self)@ == old(self)@.remove(key@).0,
            r == old(self)@.remove(key@).1,
    {
        let record = Record::RemoveRecord { key: key.clone() };
        match self.write_record(record) {
            Err(e) => Err(e),
            Ok(Some(_)) => Err(KvsError::Corruption),
            Ok(None) => {
                let removed = self.index.remove(&key);
                proof {
                    let record = RecordView::RemoveRecord { key: key@ };
                    lemma_write_keeps_order(old(self)@, record);
                    assert(self@ =~= old(self)@.write(record, old(self)@.written(record)->Ok_0));
                }
                match removed {
                    Some(_) => Ok(()),
                    None => Err(KvsError::KeyNotFound),
                }
            },
        }
    }

    /// Opens the segment of generation `gen` for appending, beside the one
    /// that takes the store's own writes, and registers a fresh read handle
    /// on it. No segment is closed or loses bytes.
    pub fn new_log_file(&mut self, gen: u64) -> (w: BufWriterWithPos)
        requires
            old(self).wf(),
        ensures
            final(self).wf(),
            final(self)@ == (if old(self)@.segments.contains_key(gen) {
                old(self)@
            } else {
                StoreView {
                    segments: old(self)@.segments.insert(gen, Seq::<u8>::empty()),
                    ..old(self)@
                }
            }),
            w.buffer@ == Seq::<u8>::empty(),
            w.writer.data@ == final(self)@.segments[gen],
            w.writer.offset == w.pos,
            w.pos == final(self)@.segments[gen].len(),
    {
        let writer = new_log_file(gen, &mut self.readers);
        proof {
            let expected = if old(self)@.segments.contains_key(gen) {
                old(self)@
            } else {
                StoreView {
                    segments: old(self)@.segments.insert(gen, Seq::<u8>::empty()),
                    ..old(self)@
                }
            };
            assert(self@.segments.dom() =~= expected.segments.dom());
            assert forall|g: u64| self@.segments.contains_key(g) implies #[trigger] self@.segments[g]
                == expected.segments[g] by {
                if g != gen {
                    assert(old(self).readers@.contains_key(g));
                }
            }
            assert(self@.segments =~= expected.segments);
            assert(self@ =~= expected);
        }
        writer
    }
}

} // verus!
