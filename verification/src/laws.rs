//! What holds of the store whatever it is asked to do.

use vstd::prelude::*;
use crate::error::KvsError;
use crate::index::Value;
use crate::kv::{
    holds, lemma_replay_holds, lemma_write_keeps_order, record_at, stands_alone, apply, file_data, located, log_end, opened, replay, replay_all, replay_log, segments_in,
    Replayed, StoreView, Written,
};
use crate::record::{decoding, Decoded, RecordView};
use crate::segment::{
    ascending, generation_of, generations, lemma_ascending_unique, lemma_generations,
    lemma_name_of_generation, lists, segment_name,
};

verus! {

/// A value that was set is the value that the next lookup of its key gives.
pub proof fn lemma_set_then_get(s: StoreView, key: Seq<char>, value: Seq<char>)
    requires
        s.wf(),
    ensures
        s.set(key, value).1 is Ok ==> s.set(key, value).0.value(key) == Ok::<
            Option<Seq<char>>,
            KvsError,
        >(Some(value)),
        s.set(key, value).1 is Err ==> s.set(key, value).0 == s,
{
    let record = RecordView::SetRecord { key, value };
    if s.written(record) is Ok {
        let bytes = s.written(record)->Ok_0;
        let after = s.set(key, value).0;
        let at = s.next_place(bytes);
        assert(after.segments[at.gen] == s.active() + bytes);
        assert(after.segments[at.gen].subrange(at.pos as int, at.pos + at.size) =~= bytes);
    }
}

/// After a key of the index was removed, a lookup of it gives no value, and
/// to remove it once more fails with `KeyNotFound` and leaves every lookup
/// as it was, unless the segment can take no second tombstone, which fails
/// with `Io` and changes nothing.
pub proof fn lemma_remove_then_get(s: StoreView, key: Seq<char>)
    requires
        s.wf(),
        s.index.contains_key(key),
    ensures
        s.remove(key).1 is Ok ==> {
            let after = s.remove(key).0;
            let tombstone = after.active().len() - s.active().len();
            &&& after.value(key) == Ok::<Option<Seq<char>>, KvsError>(None)
            &&& after.remove(key).1 == (if after.active().len() + tombstone <= usize::MAX {
                Err::<(), KvsError>(KvsError::KeyNotFound)
            } else {
                Err::<(), KvsError>(KvsError::Io)
            })
            &&& forall|other: Seq<char>| #[trigger]
                after.remove(key).0.value(other) == after.value(other)
        },
        s.remove(key).1 is Err ==> s.remove(key).0 == s,
{
    if s.remove(key).1 is Ok {
        let after = s.remove(key).0;
        lemma_write_keeps_order(s, RecordView::RemoveRecord { key });
        lemma_write_keeps_values(after, RecordView::RemoveRecord { key });
        assert(after.index.remove(key) =~= after.index);
    }
}

/// A write leaves the answer to the lookup of every key as it was, but for
/// the key that the record is about.
pub proof fn lemma_write_keeps_values(s: StoreView, record: RecordView)
    requires
        s.wf(),
    ensures
        s.written(record) is Ok ==> forall|other: Seq<char>|
            other != record.key() ==> #[trigger] s.write(record, s.written(record)->Ok_0).value(other)
                == s.value(other),
{
    if s.written(record) is Ok {
        let bytes = s.written(record)->Ok_0;
        let after = s.write(record, bytes);
        assert forall|other: Seq<char>| other != record.key() implies #[trigger] after.value(other)
            == s.value(other) by {
            if s.index.contains_key(other) {
                let at = s.index[other];
                assert(located(s.segments, at));
                assert(after.index[other] == at);
                if at.gen == s.generation {
                    assert(after.segments[at.gen].subrange(at.pos as int, at.pos + at.size)
                        =~= s.segments[at.gen].subrange(at.pos as int, at.pos + at.size));
                }
            }
        }
    }
}

/// A lookup in a store in order is no error: it gives a value for the keys
/// of the index, and for no other.
pub proof fn lemma_lookup_is_no_error(s: StoreView, key: Seq<char>)
    requires
        s.wf(),
    ensures
        s.value(key) is Ok,
        s.value(key)->Ok_0 is Some <==> s.index.contains_key(key),
{
    if s.index.contains_key(key) {
        assert(holds(s.segments, key, s.index[key]));
    }
}

/// Whether the bytes of each file are few enough for memory to hold them.
pub open spec fn fits_memory(dir: Seq<(Seq<char>, Seq<u8>)>) -> bool {
    forall|i: int| 0 <= i < dir.len() ==> (#[trigger] dir[i]).1.len() <= usize::MAX
}

/// Whether no two files of the listing have the same name.
pub open spec fn distinct_names(dir: Seq<(Seq<char>, Seq<u8>)>) -> bool {
    forall|i: int, j: int| 0 <= i < j < dir.len() ==> (#[trigger] dir[i]).0 != (#[trigger] dir[j]).0
}

/// The bytes found under a name are those of a file of that name, and
/// nothing is found only where no file has the name.
proof fn lemma_file_data(dir: Seq<(Seq<char>, Seq<u8>)>, name: Seq<char>)
    ensures
        match file_data(dir, name) {
            Some(data) => exists|i: int|
                0 <= i < dir.len() && (#[trigger] dir[i]).0 == name && dir[i].1 == data,
            None => forall|i: int| 0 <= i < dir.len() ==> (#[trigger] dir[i]).0 != name,
        },
    decreases dir.len(),
{
    if dir.len() > 0 && dir[0].0 != name {
        let rest = dir.drop_first();
        lemma_file_data(rest, name);
        match file_data(rest, name) {
            Some(data) => {
                let i = choose|i: int|
                    0 <= i < rest.len() && (#[trigger] rest[i]).0 == name && rest[i].1 == data;
                assert(dir[i + 1] == rest[i]);
            },
            None => {
                assert forall|i: int| 0 <= i < dir.len() implies (#[trigger] dir[i]).0 != name by {
                    if i > 0 {
                        assert(rest[i - 1] == dir[i]);
                    }
                }
            },
        }
    }
}

/// In a listing without a name twice, each file is found under its name.
proof fn lemma_file_found(dir: Seq<(Seq<char>, Seq<u8>)>, i: int)
    requires
        distinct_names(dir),
        0 <= i < dir.len(),
    ensures
        file_data(dir, dir[i].0) == Some(dir[i].1),
{
    lemma_file_data(dir, dir[i].0);
    let j = choose|j: int|
        0 <= j < dir.len() && (#[trigger] dir[j]).0 == dir[i].0 && dir[j].1 == file_data(
            dir,
            dir[i].0,
        )->0;
    assert(i == j);
}

/// Two listings of the same files, each without a name twice, hold the same
/// bytes under every name and the segments of the same generations.
proof fn lemma_same_files(a: Seq<(Seq<char>, Seq<u8>)>, b: Seq<(Seq<char>, Seq<u8>)>)
    requires
        a.to_multiset() == b.to_multiset(),
        distinct_names(a),
        distinct_names(b),
    ensures
        forall|name: Seq<char>| file_data(a, name) == file_data(b, name),
        forall|g: u64| lists(a, g) <==> lists(b, g),
{
    assert forall|x: (Seq<char>, Seq<u8>)| a.contains(x) <==> b.contains(x) by {
        vstd::seq_lib::to_multiset_contains(a, x);
        vstd::seq_lib::to_multiset_contains(b, x);
    }
    assert forall|name: Seq<char>| file_data(a, name) == file_data(b, name) by {
        lemma_file_data(a, name);
        lemma_file_data(b, name);
        if file_data(a, name) is Some {
            let i = choose|i: int|
                0 <= i < a.len() && (#[trigger] a[i]).0 == name && a[i].1 == file_data(a, name)->0;
            assert(a.contains(a[i]));
            assert(b.contains(a[i]));
            let j = choose|j: int| 0 <= j < b.len() && b[j] == a[i];
            lemma_file_found(b, j);
        } else if file_data(b, name) is Some {
            let j = choose|j: int|
                0 <= j < b.len() && (#[trigger] b[j]).0 == name && b[j].1 == file_data(b, name)->0;
            assert(b.contains(b[j]));
            assert(a.contains(b[j]));
            let i = choose|i: int| 0 <= i < a.len() && a[i] == b[j];
            assert(a[i].0 == name);
        }
    }
    assert forall|g: u64| lists(a, g) <==> lists(b, g) by {
        if lists(a, g) {
            let i = choose|i: int| 0 <= i < a.len() && generation_of((#[trigger] a[i]).0) == Some(g);
            assert(a.contains(a[i]));
            assert(b.contains(a[i]));
            let j = choose|j: int| 0 <= j < b.len() && b[j] == a[i];
            assert(generation_of(b[j].0) == Some(g));
        }
        if lists(b, g) {
            let j = choose|j: int| 0 <= j < b.len() && generation_of((#[trigger] b[j]).0) == Some(g);
            assert(b.contains(b[j]));
            assert(a.contains(b[j]));
            let i = choose|i: int| 0 <= i < a.len() && a[i] == b[j];
            assert(generation_of(a[i].0) == Some(g));
        }
    }
}

/// The replay of a list of generations reads a directory only through the
/// bytes that it holds under their names.
proof fn lemma_replay_reads_names(
    index: Map<Seq<char>, Value>,
    a: Seq<(Seq<char>, Seq<u8>)>,
    b: Seq<(Seq<char>, Seq<u8>)>,
    gens: Seq<u64>,
)
    requires
        forall|i: int|
            0 <= i < gens.len() ==> file_data(a, segment_name(#[trigger] gens[i])) == file_data(
                b,
                segment_name(gens[i]),
            ),
    ensures
        replay_all(index, a, gens) == replay_all(index, b, gens),
    decreases gens.len(),
{
    if gens.len() > 0 {
        assert(file_data(a, segment_name(gens[0])) == file_data(b, segment_name(gens[0])));
        match file_data(a, segment_name(gens[0])) {
            Some(data) => {
                let rest = gens.drop_first();
                assert forall|i: int| 0 <= i < rest.len() implies file_data(
                    a,
                    segment_name(#[trigger] rest[i]),
                ) == file_data(b, segment_name(rest[i])) by {
                    assert(rest[i] == gens[i + 1]);
                }
                lemma_replay_reads_names(replay(index, gens[0], data, 0).index, a, b, rest);
            },
            None => {},
        }
    }
}

/// The order in which a directory lists its files makes no difference to the
/// store that is opened on it.
pub proof fn lemma_listing_order(a: Seq<(Seq<char>, Seq<u8>)>, b: Seq<(Seq<char>, Seq<u8>)>)
    requires
        a.to_multiset() == b.to_multiset(),
        distinct_names(a),
        distinct_names(b),
    ensures
        opened(a) == opened(b),
{
    lemma_same_files(a, b);
    lemma_generations(a);
    lemma_generations(b);
    lemma_ascending_unique(generations(a), generations(b));
    let gens = generations(a);
    lemma_replay_reads_names(Map::empty(), a, b, gens);
    assert(segments_in(a, gens) =~= segments_in(b, gens));
}

/// Segments without a byte replay to the index that they found.
proof fn lemma_replay_of_nothing(
    index: Map<Seq<char>, Value>,
    dir: Seq<(Seq<char>, Seq<u8>)>,
    gens: Seq<u64>,
)
    requires
        forall|i: int| 0 <= i < dir.len() ==> (#[trigger] dir[i]).1.len() == 0,
    ensures
        replay_all(index, dir, gens) == Ok::<Map<Seq<char>, Value>, KvsError>(index) || replay_all(
            index,
            dir,
            gens,
        ) == Err::<Map<Seq<char>, Value>, KvsError>(KvsError::Io),
    decreases gens.len(),
{
    if gens.len() > 0 {
        lemma_file_data(dir, segment_name(gens[0]));
        if file_data(dir, segment_name(gens[0])) is Some {
            lemma_replay_of_nothing(index, dir, gens.drop_first());
        }
    }
}

/// A store opened on a directory in which nothing was ever written has no
/// value for any key, and a lookup in it is no error. Such a directory can
/// fail to open only for a segment whose file goes by another spelling of
/// its number, or for want of a next generation.
pub proof fn lemma_open_without_writes(dir: Seq<(Seq<char>, Seq<u8>)>, key: Seq<char>)
    requires
        forall|i: int| 0 <= i < dir.len() ==> (#[trigger] dir[i]).1.len() == 0,
    ensures
        match opened(dir) {
            Ok(s) => s.index == Map::<Seq<char>, Value>::empty() && s.value(key) == Ok::<
                Option<Seq<char>>,
                KvsError,
            >(None),
            Err(e) => e == KvsError::Io || e == KvsError::InvalidDirectory,
        },
        dir.len() == 0 ==> opened(dir) is Ok && opened(dir)->Ok_0.generation == 1,
{
    lemma_replay_of_nothing(Map::empty(), dir, generations(dir));
    if dir.len() == 0 {
        lemma_generations(dir);
        let gens = generations(dir);
        if gens.len() > 0 {
            assert(gens.contains(gens[0]));
        }
    }
}

/// A file added at the end of a listing is found under its name where the
/// listing had no file of that name, and hides none that it had.
proof fn lemma_file_added(dir: Seq<(Seq<char>, Seq<u8>)>, file: (Seq<char>, Seq<u8>), name: Seq<char>)
    ensures
        file_data(dir.push(file), name) == (match file_data(dir, name) {
            Some(data) => Some(data),
            None => if file.0 == name {
                Some(file.1)
            } else {
                None
            },
        }),
    decreases dir.len(),
{
    let more = dir.push(file);
    if dir.len() == 0 {
        assert(more[0] == file);
        assert(more.drop_first() =~= dir);
    } else {
        assert(more[0] == dir[0]);
        assert(more.drop_first() =~= dir.drop_first().push(file));
        lemma_file_added(dir.drop_first(), file, name);
    }
}

/// The index after one more segment, of generation `gen` with the bytes
/// `data`, was replayed on top of an earlier outcome.
pub open spec fn then_replay(
    earlier: Result<Map<Seq<char>, Value>, KvsError>,
    gen: u64,
    data: Option<Seq<u8>>,
) -> Result<Map<Seq<char>, Value>, KvsError> {
    match earlier {
        Err(e) => Err(e),
        Ok(index) => match data {
            None => Err(KvsError::Io),
            Some(data) => if replay(index, gen, data, 0).complete {
                Ok(replay(index, gen, data, 0).index)
            } else {
                Err(KvsError::Corruption)
            },
        },
    }
}

/// A replay of generations is the replay of all but the last of them, and
/// then that of the last.
proof fn lemma_replay_last(
    index: Map<Seq<char>, Value>,
    dir: Seq<(Seq<char>, Seq<u8>)>,
    gens: Seq<u64>,
)
    requires
        gens.len() > 0,
    ensures
        replay_all(index, dir, gens) == then_replay(
            replay_all(index, dir, gens.drop_last()),
            gens.last(),
            file_data(dir, segment_name(gens.last())),
        ),
    decreases gens.len(),
{
    if gens.len() == 1 {
        assert(gens.drop_first() =~= Seq::<u64>::empty());
        assert(gens.drop_last() =~= Seq::<u64>::empty());
    } else {
        let rest = gens.drop_first();
        assert(rest.drop_last() =~= gens.drop_last().drop_first());
        assert(rest.last() == gens.last());
        assert(gens.drop_last()[0] == gens[0]);
        assert(gens.drop_last().drop_first() =~= rest.drop_last());
        match file_data(dir, segment_name(gens[0])) {
            Some(data) => {
                if replay(index, gens[0], data, 0).complete {
                    lemma_replay_last(replay(index, gens[0], data, 0).index, dir, rest);
                }
            },
            None => {},
        }
    }
}

/// Whether `s` is the store that was opened on `dir`, after any writes: it
/// has the generation and the first index of that store, and its segments
/// but for the one that takes the writes.
pub open spec fn continues(dir: Seq<(Seq<char>, Seq<u8>)>, s: StoreView) -> bool {
    opened(dir) matches Ok(first) && first.generation == s.generation && first.index == s.base
        && s.segments == first.segments.insert(s.generation, s.active())
}

/// The directory `dir` with the segment that took the writes of `s` in it.
pub open spec fn directory_after(dir: Seq<(Seq<char>, Seq<u8>)>, s: StoreView) -> Seq<
    (Seq<char>, Seq<u8>),
> {
    dir.push((segment_name(s.generation), s.active()))
}

/// Whether each record that `s` wrote decodes as itself where it stands in
/// the segment, with the records after it behind it.
pub open spec fn reads_back(s: StoreView) -> bool {
    forall|i: int|
        0 <= i < s.log.len() ==> decoding(
            s.active().subrange((#[trigger] s.log[i]).pos as int, s.active().len() as int),
        ) == (Decoded::Item { record: s.log[i].record, len: s.log[i].len })
}

/// A store that wrote at most one record has it where it reads back: the
/// record is all of its segment, which decoded to it before it was written.
pub proof fn lemma_one_write_reads_back(s: StoreView)
    requires
        s.wf(),
        s.log.len() <= 1,
    ensures
        reads_back(s),
{
    if s.log.len() == 1 {
        let w = s.log[0];
        assert(s.log.take(0) =~= Seq::<Written>::empty());
        assert(s.log.last() == w);
    }
}

/// The store that has the index of `s`, its segments and a new, empty one of
/// the next generation for the writes: `InvalidDirectory` where no generation
/// is left.
pub open spec fn reopened(s: StoreView) -> Result<StoreView, KvsError> {
    if s.generation < u64::MAX {
        let next = (s.generation + 1) as u64;
        Ok(
            StoreView {
                index: s.index,
                segments: s.segments.insert(next, Seq::empty()),
                generation: next,
                base: s.index,
                log: Seq::empty(),
            },
        )
    } else {
        Err(KvsError::InvalidDirectory)
    }
}

/// A store continues the directory that it was opened on, and goes on to do
/// so through every `set` and `remove`.
pub proof fn lemma_continues(dir: Seq<(Seq<char>, Seq<u8>)>, s: StoreView, key: Seq<char>, value: Seq<char>)
    ensures
        opened(dir) == Ok::<StoreView, KvsError>(s) ==> continues(dir, s),
        continues(dir, s) ==> continues(dir, s.set(key, value).0) && continues(
            dir,
            s.remove(key).0,
        ),
{
    if opened(dir) == Ok::<StoreView, KvsError>(s) {
        assert(s.segments =~= s.segments.insert(s.generation, s.active()));
    }
    if continues(dir, s) {
        let first = opened(dir)->Ok_0;
        let a = s.set(key, value).0;
        assert(a.segments =~= first.segments.insert(a.generation, a.active()));
        let b = s.remove(key).0;
        assert(b.segments =~= first.segments.insert(b.generation, b.active()));
    }
}

/// The segment that took the writes replays, on the index that the store was
/// opened with, to the index that the store has now, where each of its
/// records decodes as itself with the later ones behind it.
pub proof fn lemma_session_replays(s: StoreView, done: int)
    requires
        s.wf(),
        reads_back(s),
        0 <= done <= s.log.len(),
    ensures
        replay(
            replay_log(s.base, s.generation, s.log.take(done)),
            s.generation,
            s.active(),
            log_end(s.log.take(done)),
        ) == (Replayed { index: s.index, end: s.active().len(), complete: true }),
    decreases s.log.len() - done,
{
    if done == s.log.len() {
        assert(s.log.take(done) =~= s.log);
    } else {
        let w = s.log[done];
        let next = s.log.take(done + 1);
        assert(next.drop_last() =~= s.log.take(done));
        assert(next.last() == w);
        assert(w.pos == log_end(s.log.take(done)));
        assert(decoding(s.active().subrange(w.pos as int, (w.pos + w.len) as int)) == (
        Decoded::Item { record: w.record, len: w.len }));
        assert(w.len > 0);
        lemma_session_replays(s, done + 1);
    }
}

/// Opening the directory again after a store's writes replays the old
/// segments to the index that the store was opened with, and the segment
/// that took the writes on top. Where each record of that segment decodes as
/// itself with the later ones behind it, the store opened then has the index
/// that the store had at its end, and so the same answer to every lookup:
/// nothing is lost and nothing comes twice.
pub proof fn lemma_reopen(dir: Seq<(Seq<char>, Seq<u8>)>, s: StoreView)
    requires
        s.wf(),
        continues(dir, s),
    ensures
        opened(directory_after(dir, s)) == (if replay(
            s.base,
            s.generation,
            s.active(),
            0,
        ).complete {
            reopened(StoreView { index: replay(s.base, s.generation, s.active(), 0).index, ..s })
        } else {
            Err(KvsError::Corruption)
        }),
        reads_back(s) ==> opened(directory_after(dir, s)) == reopened(s),
        reopened(s) is Ok ==> forall|key: Seq<char>|
            #[trigger] reopened(s)->Ok_0.value(key) == s.value(key),
{
    let after = directory_after(dir, s);
    let gen = s.generation;
    let name = segment_name(gen);
    let first = opened(dir)->Ok_0;
    let gens = generations(dir);
    let more = gens.push(gen);
    lemma_generations(dir);
    lemma_generations(after);
    lemma_name_of_generation(gen);
    // The generation of the store is greater than those of the directory.
    assert forall|i: int| 0 <= i < gens.len() implies #[trigger] gens[i] < gen by {
        if i < gens.len() - 1 {
            assert(gens[i] < gens[gens.len() - 1]);
        }
    }
    assert(ascending(more));
    assert forall|g: u64| more.contains(g) <==> lists(after, g) by {
        if more.contains(g) {
            let i = choose|i: int| 0 <= i < more.len() && more[i] == g;
            if i < gens.len() {
                assert(gens.contains(g));
                let j = choose|j: int|
                    0 <= j < dir.len() && generation_of((#[trigger] dir[j]).0) == Some(g);
                assert(after[j] == dir[j]);
            } else {
                assert(after[dir.len() as int].0 == name);
            }
        }
        if lists(after, g) {
            let j = choose|j: int|
                0 <= j < after.len() && generation_of((#[trigger] after[j]).0) == Some(g);
            if j < dir.len() {
                assert(after[j] == dir[j]);
                assert(lists(dir, g));
                let i = choose|i: int| 0 <= i < gens.len() && gens[i] == g;
                assert(more[i] == g);
            } else {
                assert(more[gens.len() as int] == g);
            }
        }
    }
    lemma_ascending_unique(more, generations(after));
    // The directory holds no file under the name of that generation.
    lemma_file_data(dir, name);
    if file_data(dir, name) is Some {
        let j = choose|j: int|
            0 <= j < dir.len() && (#[trigger] dir[j]).0 == name && dir[j].1 == file_data(
                dir,
                name,
            )->0;
        assert(lists(dir, gen));
        assert(gens.contains(gen));
        let i = choose|i: int| 0 <= i < gens.len() && gens[i] == gen;
        assert(gens[i] < gen);
    }
    lemma_file_added(dir, (name, s.active()), name);
    assert forall|i: int| 0 <= i < gens.len() implies file_data(
        after,
        segment_name(#[trigger] gens[i]),
    ) == file_data(dir, segment_name(gens[i])) by {
        lemma_file_added(dir, (name, s.active()), segment_name(gens[i]));
        lemma_name_of_generation(gens[i]);
    }
    assert(more.drop_last() =~= gens);
    lemma_replay_last(Map::empty(), after, more);
    lemma_replay_reads_names(Map::empty(), after, dir, gens);
    assert(segments_in(after, more) =~= s.segments) by {
        assert forall|g: u64| more.contains(g) <==> (gens.contains(g) || g == gen) by {
            if gens.contains(g) {
                let i = choose|i: int| 0 <= i < gens.len() && gens[i] == g;
                assert(more[i] == g);
            }
            if g == gen {
                assert(more[gens.len() as int] == g);
            }
        }
        assert forall|g: u64| gens.contains(g) implies file_data(after, segment_name(g))
            == file_data(dir, segment_name(g)) by {
            let i = choose|i: int| 0 <= i < gens.len() && gens[i] == g;
        }
    }
    assert(more.last() == gen);
    if reads_back(s) {
        lemma_session_replays(s, 0);
        assert(s.log.take(0) =~= Seq::<Written>::empty());
    }
    if reopened(s) is Ok {
        let again = reopened(s)->Ok_0;
        assert forall|key: Seq<char>| #[trigger] again.value(key) == s.value(key) by {
            if s.index.contains_key(key) {
                let at = s.index[key];
                assert(located(s.segments, at));
                if at.gen != gen {
                    assert(first.segments.contains_key(at.gen));
                    assert(gens.contains(at.gen));
                    let i = choose|i: int| 0 <= i < gens.len() && gens[i] == at.gen;
                    assert(gens[i] < gen);
                }
            }
        }
    }
}

/// Replaying generations puts into the index only places that hold a `Set`
/// record of their key.
proof fn lemma_replay_all_holds(
    index: Map<Seq<char>, Value>,
    dir: Seq<(Seq<char>, Seq<u8>)>,
    gens: Seq<u64>,
    segments: Map<u64, Seq<u8>>,
)
    requires
        fits_memory(dir),
        forall|key: Seq<char>| #[trigger]
            index.contains_key(key) ==> holds(segments, key, index[key]),
        forall|i: int|
            0 <= i < gens.len() ==> segments.contains_key(#[trigger] gens[i]) && (file_data(
                dir,
                segment_name(gens[i]),
            ) is Some ==> segments[gens[i]] == file_data(dir, segment_name(gens[i]))->0),
        replay_all(index, dir, gens) is Ok,
    ensures
        forall|key: Seq<char>| #[trigger]
            replay_all(index, dir, gens)->Ok_0.contains_key(key) ==> holds(
                segments,
                key,
                replay_all(index, dir, gens)->Ok_0[key],
            ),
    decreases gens.len(),
{
    if gens.len() > 0 {
        let gen = gens[0];
        lemma_file_data(dir, segment_name(gen));
        let data = file_data(dir, segment_name(gen))->0;
        lemma_replay_holds(index, gen, data, 0, segments);
        let rest = gens.drop_first();
        assert forall|i: int| 0 <= i < rest.len() implies segments.contains_key(#[trigger] rest[i])
            && (file_data(dir, segment_name(rest[i])) is Some ==> segments[rest[i]] == file_data(
            dir,
            segment_name(rest[i]),
        )->0) by {
            assert(rest[i] == gens[i + 1]);
        }
        lemma_replay_all_holds(replay(index, gen, data, 0).index, dir, rest, segments);
    }
}

/// The store that opening a directory gives is in order.
pub proof fn lemma_opened_in_order(dir: Seq<(Seq<char>, Seq<u8>)>)
    requires
        fits_memory(dir),
        opened(dir) is Ok,
    ensures
        opened(dir)->Ok_0.wf(),
{
    let s = opened(dir)->Ok_0;
    let gens = generations(dir);
    lemma_generations(dir);
    let found = segments_in(dir, gens);
    assert forall|i: int| 0 <= i < gens.len() implies found.contains_key(#[trigger] gens[i]) by {
        assert(gens.contains(gens[i]));
    }
    lemma_replay_all_holds(Map::empty(), dir, gens, found);
    assert forall|key: Seq<char>| #[trigger] s.index.contains_key(key) implies holds(
        s.segments,
        key,
        s.index[key],
    ) by {
        let at = s.index[key];
        assert(holds(found, key, at));
        assert(gens.contains(at.gen));
        let i = choose|i: int| 0 <= i < gens.len() && gens[i] == at.gen;
        assert(gens[i] <= gens[gens.len() - 1]);
    }
}

/// The place that an index has for a key, if it has one.
pub open spec fn entry(index: Map<Seq<char>, Value>, key: Seq<char>) -> Option<Value> {
    if index.contains_key(key) {
        Some(index[key])
    } else {
        None
    }
}

/// What becomes of the place `before` of `key` over the records of the
/// segment `data` of generation `gen`, from offset `pos` on, as far as they
/// replay: each `Set` of the key puts its own place there, each `Remove` of
/// the key leaves none, and the other records leave it alone.
pub open spec fn fate(before: Option<Value>, gen: u64, data: Seq<u8>, pos: nat, key: Seq<char>) -> Option<
    Value,
>
    decreases data.len() - pos,
{
    if pos >= data.len() {
        before
    } else {
        match decoding(data.subrange(pos as int, data.len() as int)) {
            Decoded::Item { record, len } => if stands_alone(data, pos, record, len) {
                fate(
                    if record.key() == key {
                        match record {
                            RecordView::SetRecord { .. } => Some(
                                Value { gen, pos: pos as u64, size: len as u64 },
                            ),
                            RecordView::RemoveRecord { .. } => None,
                        }
                    } else {
                        before
                    },
                    gen,
                    data,
                    pos + len,
                    key,
                )
            } else {
                before
            },
            _ => before,
        }
    }
}

/// A replay does to the place of a key what its records say of that key.
proof fn lemma_replay_follows_fate(
    index: Map<Seq<char>, Value>,
    gen: u64,
    data: Seq<u8>,
    pos: nat,
    key: Seq<char>,
)
    ensures
        entry(replay(index, gen, data, pos).index, key) == fate(
            entry(index, key),
            gen,
            data,
            pos,
            key,
        ),
    decreases data.len() - pos,
{
    if pos < data.len() {
        match decoding(data.subrange(pos as int, data.len() as int)) {
            Decoded::Item { record, len } => {
                if stands_alone(data, pos, record, len) {
                    let at = Value { gen, pos: pos as u64, size: len as u64 };
                    lemma_replay_follows_fate(apply(index, record, at), gen, data, pos + len, key);
                }
            },
            _ => {},
        }
    }
}

/// Over the same records two places of a key end up the same, or each is
/// left as it was; and a place that is not left as it was is none or lies in
/// the generation of the segment.
proof fn lemma_fate(a: Option<Value>, b: Option<Value>, gen: u64, data: Seq<u8>, pos: nat, key: Seq<char>)
    ensures
        fate(a, gen, data, pos, key) == fate(b, gen, data, pos, key) || (fate(
            a,
            gen,
            data,
            pos,
            key,
        ) == a && fate(b, gen, data, pos, key) == b),
        fate(a, gen, data, pos, key) == a || fate(a, gen, data, pos, key) is None || fate(
            a,
            gen,
            data,
            pos,
            key,
        )->0.gen == gen,
    decreases data.len() - pos,
{
    if pos < data.len() {
        match decoding(data.subrange(pos as int, data.len() as int)) {
            Decoded::Item { record, len } => {
                if !stands_alone(data, pos, record, len) {
                } else if record.key() == key {
                    let next = match record {
                        RecordView::SetRecord { .. } => Some(
                            Value { gen, pos: pos as u64, size: len as u64 },
                        ),
                        RecordView::RemoveRecord { .. } => None,
                    };
                    lemma_fate(next, next, gen, data, pos + len, key);
                } else {
                    lemma_fate(a, b, gen, data, pos + len, key);
                }
            },
            _ => {},
        }
    }
}

/// Where a list of generations replays, each shorter list of its first
/// generations replays.
proof fn lemma_replay_first(dir: Seq<(Seq<char>, Seq<u8>)>, gens: Seq<u64>, count: int)
    requires
        replay_all(Map::empty(), dir, gens) is Ok,
        0 <= count <= gens.len(),
    ensures
        replay_all(Map::empty(), dir, gens.take(count)) is Ok,
    decreases gens.len() - count,
{
    if count == gens.len() {
        assert(gens.take(count) =~= gens);
    } else {
        lemma_replay_first(dir, gens, count + 1);
        assert(gens.take(count + 1).drop_last() =~= gens.take(count));
        lemma_replay_last(Map::empty(), dir, gens.take(count + 1));
    }
}

/// Whether the segment of generation `gen` in `dir` leaves the place `at` of
/// `key` alone.
pub open spec fn keeps(dir: Seq<(Seq<char>, Seq<u8>)>, gen: u64, key: Seq<char>, at: Value) -> bool {
    fate(Some(at), gen, file_data(dir, segment_name(gen)).unwrap(), 0, key) == Some(at)
}

/// The place that the segment of generation `gen` in `dir` ends on for
/// `key`, whatever came before it: none where it says nothing of the key or
/// ends on a `Remove` of it.
pub open spec fn last_set(dir: Seq<(Seq<char>, Seq<u8>)>, gen: u64, key: Seq<char>) -> Option<Value> {
    fate(None, gen, file_data(dir, segment_name(gen)).unwrap(), 0, key)
}

/// The generation `which` still has its way when the first `upto + 1`
/// generations are replayed.
proof fn lemma_wins_so_far(
    dir: Seq<(Seq<char>, Seq<u8>)>,
    gens: Seq<u64>,
    key: Seq<char>,
    which: int,
    upto: int,
)
    requires
        replay_all(Map::empty(), dir, gens) is Ok,
        0 <= which <= upto < gens.len(),
        last_set(dir, gens[which], key) is Some,
        forall|later: int|
            which < later < gens.len() ==> keeps(
                dir,
                #[trigger] gens[later],
                key,
                last_set(dir, gens[which], key)->0,
            ),
    ensures
        replay_all(Map::empty(), dir, gens.take(upto + 1)) is Ok,
        entry(replay_all(Map::empty(), dir, gens.take(upto + 1))->Ok_0, key) == last_set(
            dir,
            gens[which],
            key,
        ),
        last_set(dir, gens[which], key)->0.gen == gens[which],
    decreases upto - which,
{
    let first = gens.take(upto + 1);
    let gen = gens[upto];
    lemma_replay_first(dir, gens, upto + 1);
    lemma_replay_first(dir, gens, upto);
    assert(first.drop_last() =~= gens.take(upto));
    assert(first.last() == gen);
    lemma_replay_last(Map::empty(), dir, first);
    let before = replay_all(Map::empty(), dir, gens.take(upto))->Ok_0;
    let data = file_data(dir, segment_name(gen))->0;
    lemma_replay_follows_fate(before, gen, data, 0, key);
    lemma_fate(None, entry(before, key), gens[which], file_data(dir, segment_name(gens[which]))->0, 0, key);
    if upto > which {
        lemma_wins_so_far(dir, gens, key, which, upto - 1);
    }
}

/// The value of the `Set` record that the bytes at the place `at` of a
/// segment of `dir` are, taken alone.
pub open spec fn value_in(dir: Seq<(Seq<char>, Seq<u8>)>, at: Value) -> Seq<char> {
    let data = file_data(dir, segment_name(at.gen)).unwrap();
    match decoding(data.subrange(at.pos as int, at.pos + at.size)) {
        Decoded::Item { record: RecordView::SetRecord { value, .. }, .. } => value,
        _ => Seq::empty(),
    }
}

/// Where a key was set in the segments of two generations, the later one
/// wins: the index of the store that is opened has, for a key, the place on
/// which the segment of a generation ends for it, where that is a `Set` of
/// the key and the segments of all later generations leave it alone; and a
/// lookup of the key gives the value of the record at that place. What
/// earlier generations say of the key makes no difference.
pub proof fn lemma_later_generation_wins(dir: Seq<(Seq<char>, Seq<u8>)>, key: Seq<char>, which: int)
    requires
        fits_memory(dir),
        opened(dir) is Ok,
        0 <= which < generations(dir).len(),
    ensures
        ({
            let gens = generations(dir);
            let at = last_set(dir, gens[which], key);
            let s = opened(dir)->Ok_0;
            at is Some && (forall|later: int|
                which < later < gens.len() ==> keeps(dir, #[trigger] gens[later], key, at->0))
                ==> at->0.gen == gens[which] && s.index.contains_key(key) && s.index[key] == at->0
                && s.value(key) == Ok::<Option<Seq<char>>, KvsError>(Some(value_in(dir, at->0)))
        }),
{
    let gens = generations(dir);
    let at = last_set(dir, gens[which], key);
    let s = opened(dir)->Ok_0;
    if at is Some && (forall|later: int|
        which < later < gens.len() ==> keeps(dir, #[trigger] gens[later], key, at->0)) {
        lemma_wins_so_far(dir, gens, key, which, gens.len() - 1);
        assert(gens.take(gens.len() as int) =~= gens);
        lemma_opened_in_order(dir);
        lemma_generations(dir);
        assert(holds(s.segments, key, at->0));
        assert(gens.contains(gens[which]));
        assert(gens[which] <= gens[gens.len() - 1]);
        assert(s.segments[at->0.gen] == file_data(dir, segment_name(at->0.gen)).unwrap());
    }
}

} // verus!
