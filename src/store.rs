//! The engine of the log-structured store, apart from its files: the index
//! from keys to the latest record of each, the generations of the segments,
//! the count of garbage bytes, and when to compact.
//!
//! Every change is made in two steps. A `begin_` method says what bytes to
//! append (or what to copy) and records the change as pending; once the caller
//! has written and flushed those bytes, `commit` makes the change. A ghost map
//! from generation to bytes models what each segment file holds.

use vstd::prelude::*;
use crate::error::StoreError;
use crate::record::{
    lemma_parse_record_extend, lemma_parse_record_is_bytes, lemma_record_round_trip,
    decode_record, parse_record, record_bytes, record_fits, Record, RecordModel,
};
use crate::replay::{
    apply_record, lemma_replay_append, lemma_replay_segments_push, replay, replay_segments,
};

verus! {

/// Garbage, in bytes, beyond which a `Put` triggers a compaction.
pub const COMPACTION_THRESHOLD: u64 = 1048576;

/// Where a record lies: its segment's generation, its first byte, its length.
#[derive(Clone, Copy, Debug, PartialEq, Eq, Structural)]
pub struct Location {
    pub generation: u64,
    pub offset: u64,
    pub length: u64,
}

/// The bytes of `segs` that `loc` points at hold a `Put` of `key` to `value`,
/// and nothing more.
pub open spec fn holds_at(
    segs: Map<u64, Seq<u8>>,
    loc: Location,
    key: Seq<char>,
    value: Seq<char>,
) -> bool {
    &&& segs.contains_key(loc.generation)
    &&& loc.offset + loc.length <= segs[loc.generation].len()
    &&& parse_record(
        segs[loc.generation].subrange(loc.offset as int, loc.offset + loc.length),
    ) == Some((RecordModel::Put { key, value }, loc.length as int))
}

/// The bytes of the segments of `gens`, in that order.
pub open spec fn segment_list(gens: Seq<u64>, segs: Map<u64, Seq<u8>>) -> Seq<Seq<u8>>
    decreases gens.len(),
{
    if gens.len() == 0 {
        Seq::empty()
    } else {
        segment_list(gens.drop_last(), segs).push(segs[gens.last()])
    }
}

/// `a + b`, or the largest `u64` where that does not fit.
pub open spec fn saturating(a: u64, b: u64) -> u64 {
    if a + b <= u64::MAX {
        (a + b) as u64
    } else {
        u64::MAX
    }
}

/// The bytes of each segment read from disk.
pub open spec fn contents(segs: Seq<(u64, Vec<u8>)>) -> Seq<Seq<u8>> {
    segs.map_values(|p: (u64, Vec<u8>)| p.1@)
}

/// The generation of each segment read from disk.
pub open spec fn generations_of(segs: Seq<(u64, Vec<u8>)>) -> Seq<u64> {
    segs.map_values(|p: (u64, Vec<u8>)| p.0)
}

/// The generation after the newest of the segments read from disk, as an
/// integer; 1 where there are none.
pub open spec fn next_generation(segs: Seq<(u64, Vec<u8>)>) -> int {
    if segs.len() == 0 {
        1
    } else {
        segs.last().0 + 1
    }
}

/// Replaying the records of segment `g`, from byte `at` on, on the index
/// `idx` and the garbage count `acc`: a `Put` points its key at the record
/// (generation `g`, its offset, its length) and makes the record it
/// supersedes garbage; a `Remove` drops its key and makes both the removed
/// record and itself garbage. Returns the index and the count after.
pub open spec fn replay_positions(
    idx: Map<Seq<char>, Location>,
    acc: u64,
    g: u64,
    b: Seq<u8>,
    at: int,
) -> (Map<Seq<char>, Location>, u64)
    decreases b.len(),
{
    if b.len() == 0 {
        (idx, acc)
    } else {
        match parse_record(b) {
            Some((r, n)) => if 0 < n <= b.len() {
                let rest = b.subrange(n, b.len() as int);
                let freed = if idx.contains_key(r.record_key()) {
                    saturating(acc, idx[r.record_key()].length)
                } else {
                    acc
                };
                match r {
                    RecordModel::Put { key, .. } => replay_positions(
                        idx.insert(key, Location { generation: g, offset: at as u64, length: n as u64 }),
                        freed,
                        g,
                        rest,
                        at + n,
                    ),
                    RecordModel::Remove { key } => replay_positions(
                        idx.remove(key),
                        saturating(freed, n as u64),
                        g,
                        rest,
                        at + n,
                    ),
                }
            } else {
                (idx, acc)
            },
            None => (idx, acc),
        }
    }
}

/// Each segment read from disk: its generation and its bytes.
pub open spec fn segment_files(segs: Seq<(u64, Vec<u8>)>) -> Seq<(u64, Seq<u8>)> {
    segs.map_values(|p: (u64, Vec<u8>)| (p.0, p.1@))
}

/// [`replay_positions`] over segments, in order, each from its first byte.
pub open spec fn replay_segments_positions(
    idx: Map<Seq<char>, Location>,
    acc: u64,
    segs: Seq<(u64, Seq<u8>)>,
) -> (Map<Seq<char>, Location>, u64)
    decreases segs.len(),
{
    if segs.len() == 0 {
        (idx, acc)
    } else {
        let (i2, a2) = replay_positions(idx, acc, segs[0].0, segs[0].1, 0);
        replay_segments_positions(i2, a2, segs.drop_first())
    }
}

/// The total length of a list of segments.
pub open spec fn segments_total(segs: Seq<Seq<u8>>) -> int
    decreases segs.len(),
{
    if segs.len() == 0 {
        0
    } else {
        segments_total(segs.drop_last()) + segs.last().len()
    }
}

/// `x`, or the largest `u64` where `x` is larger.
pub open spec fn capped(x: int) -> u64 {
    if x <= u64::MAX {
        x as u64
    } else {
        u64::MAX
    }
}

/// Adding to a capped count caps the sum.
proof fn lemma_capped_add(x: int, a: u64)
    requires
        x >= 0,
    ensures
        saturating(capped(x), a) == capped(x + a),
{
}

/// The total length of the records that the entries point at.
spec fn entries_total(es: Seq<(String, Location)>) -> int
    decreases es.len(),
{
    if es.len() == 0 {
        0
    } else {
        entries_total(es.drop_last()) + es.last().1.length
    }
}

proof fn lemma_entries_total_update(es: Seq<(String, Location)>, i: int, x: (String, Location))
    requires
        0 <= i < es.len(),
    ensures
        entries_total(es.update(i, x)) == entries_total(es) - es[i].1.length + x.1.length,
    decreases es.len(),
{
    let u = es.update(i, x);
    if i == es.len() - 1 {
        assert(u.drop_last() =~= es.drop_last());
    } else {
        assert(u.drop_last() =~= es.drop_last().update(i, x));
        lemma_entries_total_update(es.drop_last(), i, x);
    }
}

proof fn lemma_entries_total_remove(es: Seq<(String, Location)>, i: int)
    requires
        0 <= i < es.len(),
    ensures
        entries_total(es.remove(i)) == entries_total(es) - es[i].1.length,
    decreases es.len(),
{
    let r = es.remove(i);
    if i == es.len() - 1 {
        assert(r =~= es.drop_last());
    } else {
        assert(r.drop_last() =~= es.drop_last().remove(i));
        lemma_entries_total_remove(es.drop_last(), i);
    }
}

/// A change that has been begun and waits for `commit`.
pub enum Change {
    Idle,
    Put { key: Seq<char>, value: Seq<char> },
    Remove { key: Seq<char> },
    Compaction { compact_generation: u64, writer_generation: u64, copies: Seq<Location> },
}

enum Pending {
    Idle,
    Put { key: String, value: String, length: u64 },
    Remove { key: String, length: u64 },
    Compaction { next: LogState, copies: Ghost<Seq<Location>> },
}

/// What a compaction asks of the caller: copy the records at `copies`, in
/// order, into a new segment `compact_generation`; flush it; delete the
/// segments of `stale`; start segment `writer_generation` for new records.
pub struct CompactionPlan {
    pub compact_generation: u64,
    pub writer_generation: u64,
    pub copies: Vec<Location>,
    pub stale: Vec<u64>,
}

/// The total length of the records at `locs`.
pub open spec fn total_length(locs: Seq<Location>) -> int
    decreases locs.len(),
{
    if locs.len() == 0 {
        0
    } else {
        total_length(locs.drop_last()) + locs.last().length
    }
}

/// `locs` are distinct locations of live keys of `index`.
pub open spec fn distinct_live(index: Map<Seq<char>, Location>, locs: Seq<Location>) -> bool {
    &&& forall|i: int| 0 <= i < locs.len() ==> index.contains_value(#[trigger] locs[i])
    &&& forall|i: int, j: int| 0 <= i < j < locs.len() ==> locs[i] != locs[j]
}

/// Compaction moved the record of each live key of `before` to where it now
/// lies in `after`: segment `cg`, just after the records copied before it.
pub open spec fn compacted_at(
    before: Map<Seq<char>, Location>,
    after: Map<Seq<char>, Location>,
    copies: Seq<Location>,
    cg: u64,
) -> bool {
    &&& after.dom() == before.dom()
    &&& forall|k: Seq<char>|
        #[trigger] before.contains_key(k) ==> exists|i: int|
            0 <= i < copies.len() && copies[i] == before[k] && after[k] == Location {
                generation: cg,
                offset: total_length(copies.take(i)) as u64,
                length: copies[i].length,
            }
}

/// `copies` are the locations of the keys of `keys`, one each, in that order.
#[verifier::opaque]
pub open spec fn copied_in_order(
    index: Map<Seq<char>, Location>,
    keys: Seq<Seq<char>>,
    copies: Seq<Location>,
) -> bool {
    &&& copies.len() == keys.len()
    &&& forall|i: int| 0 <= i < copies.len() ==> #[trigger] copies[i] == index[keys[i]]
}

/// The bytes at each of `copies` in `segs`, one after another.
pub open spec fn copied_bytes(segs: Map<u64, Seq<u8>>, copies: Seq<Location>) -> Seq<u8>
    decreases copies.len(),
{
    if copies.len() == 0 {
        Seq::empty()
    } else {
        let loc = copies.last();
        copied_bytes(segs, copies.drop_last()) + segs[loc.generation].subrange(
            loc.offset as int,
            loc.offset + loc.length,
        )
    }
}

/// The keys of the entries, in their order.
spec fn key_list(es: Seq<(String, Location)>) -> Seq<Seq<char>> {
    es.map_values(|e: (String, Location)| e.0@)
}

/// The entries have distinct keys, and hold exactly the key-location pairs of `index`.
spec fn entries_match(es: Seq<(String, Location)>, index: Map<Seq<char>, Location>) -> bool {
    &&& forall|i: int, j: int|
        0 <= i < j < es.len() ==> (#[trigger] es[i]).0@ != (#[trigger] es[j]).0@
    &&& forall|i: int|
        #![trigger es[i]]
        0 <= i < es.len() ==> index.contains_key(es[i].0@) && index[es[i].0@] == es[i].1
    &&& forall|k: Seq<char>|
        #[trigger] index.contains_key(k) ==> exists|i: int|
            0 <= i < es.len() && (#[trigger] es[i]).0@ == k
}

struct LogState {
    entries: Vec<(String, Location)>,
    generations: Vec<u64>,
    writer_len: u64,
    uncompacted: u64,
    index: Ghost<Map<Seq<char>, Location>>,
    values: Ghost<Map<Seq<char>, Seq<char>>>,
    segments: Ghost<Map<u64, Seq<u8>>>,
}

/// The engine's state: see the module's documentation.
pub struct Store {
    log: LogState,
    pending: Pending,
}

impl View for Store {
    type V = Map<Seq<char>, Seq<char>>;

    /// The live keys and their values.
    closed spec fn view(&self) -> Map<Seq<char>, Seq<char>> {
        self.log.values@
    }
}

/// The segment list reads only the segments of `gens`.
proof fn lemma_segment_list_agree(gens: Seq<u64>, s1: Map<u64, Seq<u8>>, s2: Map<u64, Seq<u8>>)
    requires
        forall|i: int| 0 <= i < gens.len() ==> s1[#[trigger] gens[i]] == s2[gens[i]],
    ensures
        segment_list(gens, s1) == segment_list(gens, s2),
    decreases gens.len(),
{
    if gens.len() > 0 {
        let init = gens.drop_last();
        assert forall|i: int| 0 <= i < init.len() implies s1[#[trigger] init[i]] == s2[init[i]] by {
            assert(init[i] == gens[i]);
        }
        lemma_segment_list_agree(init, s1, s2);
        assert(s1[gens[gens.len() - 1]] == s2[gens[gens.len() - 1]]);
    }
}

/// The segment list holds the bytes of each generation, in order.
proof fn lemma_segment_list_map(gens: Seq<u64>, segs: Map<u64, Seq<u8>>)
    ensures
        segment_list(gens, segs).len() == gens.len(),
        forall|i: int| 0 <= i < gens.len() ==> #[trigger] segment_list(gens, segs)[i] == segs[gens[i]],
    decreases gens.len(),
{
    if gens.len() > 0 {
        lemma_segment_list_map(gens.drop_last(), segs);
        assert forall|i: int| 0 <= i < gens.len() implies #[trigger] segment_list(gens, segs)[i]
            == segs[gens[i]] by {
            if i < gens.len() - 1 {
                assert(gens.drop_last()[i] == gens[i]);
            }
        }
    }
}

impl LogState {
    closed spec fn entries_wf(&self) -> bool {
        entries_match(self.entries@, self.index@)
    }

    closed spec fn segments_wf(&self) -> bool {
        let gens = self.generations@;
        &&& forall|i: int, j: int| 0 <= i < j < gens.len() ==> gens[i] < gens[j]
        &&& forall|g: u64| #[trigger] self.segments@.contains_key(g) <==> gens.contains(g)
    }

    closed spec fn generations_wf(&self) -> bool {
        let gens = self.generations@;
        &&& self.segments_wf()
        &&& gens.len() > 0
        &&& self.segments@[gens.last()].len() == self.writer_len
    }

    closed spec fn index_wf(&self) -> bool {
        &&& self.entries_wf()
        &&& self.index@.dom() == self.values@.dom()
        &&& forall|k: Seq<char>|
            #[trigger] self.index@.contains_key(k) ==> holds_at(
                self.segments@,
                self.index@[k],
                k,
                self.values@[k],
            )
    }

    closed spec fn inv(&self) -> bool {
        &&& self.generations_wf()
        &&& self.entries_wf()
        &&& self.index@.dom() == self.values@.dom()
        &&& forall|k: Seq<char>|
            #[trigger] self.index@.contains_key(k) ==> holds_at(
                self.segments@,
                self.index@[k],
                k,
                self.values@[k],
            )
        &&& replay_segments(Map::empty(), segment_list(self.generations@, self.segments@)) == Some(self.values@)
        &&& self.unreferenced() >= 0
        &&& self.uncompacted == capped(self.unreferenced())
    }

    /// The keys of the entries, in their order.
    closed spec fn keys(&self) -> Seq<Seq<char>> {
        key_list(self.entries@)
    }

    /// The bytes of the segments less the bytes of the records that the
    /// index points at.
    closed spec fn unreferenced(&self) -> int {
        segments_total(segment_list(self.generations@, self.segments@)) - entries_total(
            self.entries@,
        )
    }

    fn find(&self, key: &String) -> (r: Option<usize>)
        requires
            self.entries_wf(),
        ensures
            r is None <==> !self.index@.contains_key(key@),
            r matches Some(i) ==> i < self.entries@.len() && self.entries@[i as int].0@ == key@,
    {
        let mut i: usize = 0;
        while i < self.entries.len()
            invariant
                self.entries_wf(),
                i <= self.entries@.len(),
                forall|j: int| 0 <= j < i ==> (#[trigger] self.entries@[j]).0@ != key@,
            decreases self.entries@.len() - i,
        {
            if self.entries[i].0 == *key {
                return Some(i);
            }
            i = i + 1;
        }
        None
    }

    /// The current segment grows by `rec`: every record that a location points
    /// at still lies where it did, and the segments replay to one more record.
    proof fn lemma_append(&self, rec: RecordModel) -> (segs: Map<u64, Seq<u8>>)
        requires
            self.generations_wf(),
            forall|k: Seq<char>|
                #[trigger] self.index@.contains_key(k) ==> holds_at(
                    self.segments@,
                    self.index@[k],
                    k,
                    self.values@[k],
                ),
            replay_segments(Map::empty(), segment_list(self.generations@, self.segments@)) == Some(self.values@),
            record_fits(rec),
        ensures
            segs == self.segments@.insert(
                self.generations@.last(),
                self.segments@[self.generations@.last()] + record_bytes(rec),
            ),
            forall|k: Seq<char>|
                #[trigger] self.index@.contains_key(k) ==> holds_at(
                    segs,
                    self.index@[k],
                    k,
                    self.values@[k],
                ),
            replay_segments(Map::empty(), segment_list(self.generations@, segs)) == Some(
                apply_record(self.values@, rec),
            ),
            segments_total(segment_list(self.generations@, segs)) == segments_total(
                segment_list(self.generations@, self.segments@),
            ) + record_bytes(rec).len(),
    {
        let gens = self.generations@;
        let cur = self.generations@.last();
        let old_seg = self.segments@[cur];
        let segs = self.segments@.insert(cur, old_seg + record_bytes(rec));
        assert forall|k: Seq<char>| #[trigger] self.index@.contains_key(k) implies holds_at(
            segs,
            self.index@[k],
            k,
            self.values@[k],
        ) by {
            let loc = self.index@[k];
            if loc.generation == cur {
                assert(segs[cur].subrange(loc.offset as int, loc.offset + loc.length)
                    =~= old_seg.subrange(loc.offset as int, loc.offset + loc.length));
            }
        }
        let init = gens.drop_last();
        assert forall|i: int| 0 <= i < init.len() implies self.segments@[#[trigger] init[i]]
            == segs[init[i]] by {
            assert(init[i] == gens[i]);
            assert(gens[i] < gens[gens.len() - 1]);
        }
        lemma_segment_list_agree(init, self.segments@, segs);
        let before = segment_list(init, self.segments@);
        lemma_replay_segments_push(Map::empty(), before, old_seg);
        lemma_replay_segments_push(Map::empty(), before, old_seg + record_bytes(rec));
        lemma_replay_append(replay_segments(Map::empty(), before)->0, old_seg, rec);
        assert(segment_list(gens, segs) == segment_list(init, segs).push(segs[cur]));
        assert(segment_list(gens, self.segments@) == before.push(old_seg));
        assert(segment_list(gens, segs).drop_last() =~= before);
        assert(before.push(old_seg).drop_last() =~= before);
        segs
    }

    /// Appends a `Put` of `key` to `value` to the current segment and
    /// points the key at it.
    #[verifier::rlimit(80)]
    fn apply_put(&mut self, key: String, value: String, length: u64)
        requires
            old(self).inv(),
            record_fits(RecordModel::Put { key: key@, value: value@ }),
            length == record_bytes(RecordModel::Put { key: key@, value: value@ }).len(),
            old(self).writer_len + length <= u64::MAX,
        ensures
            final(self).inv(),
            final(self).values@ == old(self).values@.insert(key@, value@),
            final(self).segments@ == old(self).segments@.insert(
                old(self).generations@.last(),
                old(self).segments@[old(self).generations@.last()] + record_bytes(
                    RecordModel::Put { key: key@, value: value@ },
                ),
            ),
            final(self).generations@ == old(self).generations@,
            final(self).index@ == old(self).index@.insert(
                key@,
                Location {
                    generation: old(self).generations@.last(),
                    offset: old(self).writer_len,
                    length,
                },
            ),
            final(self).uncompacted == if old(self).values@.contains_key(key@) {
                saturating(old(self).uncompacted, old(self).index@[key@].length)
            } else {
                old(self).uncompacted
            },
    {
        let ghost rec = RecordModel::Put { key: key@, value: value@ };
        let loc = Location {
            generation: self.generations[self.generations.len() - 1],
            offset: self.writer_len,
            length,
        };
        proof {
            let segs = self.lemma_append(rec);
            lemma_record_round_trip(rec, Seq::empty());
            let seg = segs[loc.generation];
            assert(seg.subrange(loc.offset as int, loc.offset + loc.length) =~= record_bytes(
                rec,
            ) + Seq::<u8>::empty());
            self.segments = Ghost(segs);
            self.values@ = self.values@.insert(key@, value@);
        }
        self.writer_len = self.writer_len + length;
        let ghost unref = old(self).unreferenced();
        let prev = self.set_entry(key, loc);
        if let Some(p) = prev {
            proof {
                lemma_capped_add(unref, p.length);
            }
            self.uncompacted = self.uncompacted.saturating_add(p.length);
        }
        proof {
            assert(self.index@.dom() =~= self.values@.dom());
            assert(self.unreferenced() == unref + (if old(self).index@.contains_key(key@) {
                old(self).index@[key@].length as int
            } else {
                0
            }));
        }
    }

    /// Appends a tombstone of `key` to the current segment and drops the key.
    fn apply_remove(&mut self, key: String, length: u64)
        requires
            old(self).inv(),
            record_fits(RecordModel::Remove { key: key@ }),
            length == record_bytes(RecordModel::Remove { key: key@ }).len(),
            old(self).writer_len + length <= u64::MAX,
            old(self).index@.contains_key(key@),
        ensures
            final(self).inv(),
            final(self).values@ == old(self).values@.remove(key@),
            final(self).segments@ == old(self).segments@.insert(
                old(self).generations@.last(),
                old(self).segments@[old(self).generations@.last()] + record_bytes(
                    RecordModel::Remove { key: key@ },
                ),
            ),
            final(self).generations@ == old(self).generations@,
            final(self).index@ == old(self).index@.remove(key@),
            final(self).uncompacted == saturating(
                saturating(old(self).uncompacted, old(self).index@[key@].length),
                length,
            ),
    {
        let ghost rec = RecordModel::Remove { key: key@ };
        proof {
            let segs = self.lemma_append(rec);
            self.segments = Ghost(segs);
            self.values@ = self.values@.remove(key@);
        }
        self.writer_len = self.writer_len + length;
        let ghost unref = old(self).unreferenced();
        let prev = self.remove_entry(&key);
        let ghost freed: int = old(self).index@[key@].length as int;
        if let Some(p) = prev {
            proof {
                lemma_capped_add(unref, p.length);
            }
            self.uncompacted = self.uncompacted.saturating_add(p.length);
        }
        proof {
            lemma_capped_add(unref + freed, length);
        }
        self.uncompacted = self.uncompacted.saturating_add(length);
        proof {
            assert(self.index@.dom() =~= self.values@.dom());
            assert(self.unreferenced() == unref + freed + length);
        }
    }

    /// Distinct entries lie at distinct locations: the bytes at a location
    /// hold the key of its entry.
    proof fn lemma_distinct_locations(&self, a: int, b: int)
        requires
            self.inv(),
            0 <= a < b < self.entries@.len(),
        ensures
            self.entries@[a].1 != self.entries@[b].1,
    {
        let ka = self.entries@[a].0@;
        let kb = self.entries@[b].0@;
        assert(self.index@.contains_key(ka) && self.index@[ka] == self.entries@[a].1);
        assert(self.index@.contains_key(kb) && self.index@[kb] == self.entries@[b].1);
        assert(ka != kb);
    }

    /// The state after copying every live record, in the order of the
    /// entries, into a new segment `cg`, with an empty segment `cg + 1` to
    /// take new records; and the locations copied.
    #[verifier::rlimit(100)]
    #[verifier::spinoff_prover]
    fn compacted(&self, cg: u64) -> (r: Result<(LogState, Vec<Location>), StoreError>)
        requires
            self.inv(),
            cg == self.generations@.last() + 1,
            cg + 1 <= u64::MAX,
        ensures
            r matches Ok((next, copies)) ==> {
                &&& next.inv()
                &&& next.generations@ == seq![cg, (cg + 1) as u64]
                &&& next.segments@ == Map::<u64, Seq<u8>>::empty().insert(
                    cg,
                    copied_bytes(self.segments@, copies@),
                ).insert((cg + 1) as u64, Seq::empty())
                &&& next.values@ == self.values@
                &&& next.uncompacted == 0
                &&& forall|k: Seq<char>|
                    #[trigger] next.index@.contains_key(k) ==> next.index@[k].generation == cg
                &&& forall|k: Seq<char>|
                    #[trigger] self.index@.contains_key(k) ==> copies@.contains(self.index@[k])
                &&& compacted_at(self.index@, next.index@, copies@, cg)
                &&& copied_in_order(self.index@, self.keys(), copies@)
            },
            r matches Err(e) ==> e is Io && exists|c: Seq<Location>|
                distinct_live(self.index@, c) && total_length(c) > u64::MAX,
    {
        let n = self.entries.len();
        let mut entries: Vec<(String, Location)> = Vec::new();
        let mut copies: Vec<Location> = Vec::new();
        let mut offset: u64 = 0;
        let ghost mut seg: Seq<u8> = Seq::empty();
        let ghost mut m: Map<Seq<char>, Seq<char>> = Map::empty();
        let ghost mut idx: Map<Seq<char>, Location> = Map::empty();
        let mut i: usize = 0;
        while i < n
            invariant
                self.inv(),
                n == self.entries@.len(),
                i <= n,
                entries@.len() == i,
                copies@.len() == i,
                seg == copied_bytes(self.segments@, copies@),
                seg.len() == offset,
                offset == total_length(copies@),
                entries_total(entries@) == total_length(copies@),
                replay(Map::empty(), seg) == Some(m),
                idx.dom() == m.dom(),
                forall|j: int|
                    #![trigger entries@[j]]
                    0 <= j < i ==> {
                        &&& copies@[j] == self.entries@[j].1
                        &&& entries@[j].0@ == self.entries@[j].0@
                        &&& entries@[j].1 == Location {
                            generation: cg,
                            offset: total_length(copies@.take(j)) as u64,
                            length: copies@[j].length,
                        }
                        &&& idx.contains_key(entries@[j].0@)
                        &&& idx[entries@[j].0@] == entries@[j].1
                        &&& m[entries@[j].0@] == self.values@[entries@[j].0@]
                        &&& entries@[j].1.offset + entries@[j].1.length <= seg.len()
                        &&& parse_record(
                            seg.subrange(
                                entries@[j].1.offset as int,
                                entries@[j].1.offset + entries@[j].1.length,
                            ),
                        ) == Some(
                            (
                                RecordModel::Put {
                                    key: entries@[j].0@,
                                    value: self.values@[entries@[j].0@],
                                },
                                entries@[j].1.length as int,
                            ),
                        )
                    },
                forall|k: Seq<char>|
                    #[trigger] m.contains_key(k) ==> exists|j: int|
                        0 <= j < i && (#[trigger] entries@[j]).0@ == k,
            decreases n - i,
        {
            let key = self.entries[i].0.clone();
            let loc = self.entries[i].1;
            if loc.length > u64::MAX - offset {
                proof {
                    let c = copies@.push(loc);
                    assert(c.drop_last() =~= copies@);
                    assert forall|a: int| 0 <= a < c.len() implies #[trigger] c[a]
                        == self.entries@[a].1 by {
                        if a < i {
                            assert(entries@[a].0@ == self.entries@[a].0@);
                        }
                    }
                    assert forall|a: int| 0 <= a < c.len() implies self.index@.contains_value(
                        #[trigger] c[a],
                    ) by {
                        let ka = self.entries@[a].0@;
                        assert(c[a] == self.entries@[a].1);
                        assert(self.index@.contains_key(ka) && self.index@[ka] == c[a]);
                    }
                    assert forall|a: int, b: int| 0 <= a < b < c.len() implies c[a] != c[b] by {
                        assert(c[a] == self.entries@[a].1);
                        assert(c[b] == self.entries@[b].1);
                        self.lemma_distinct_locations(a, b);
                    }
                    assert(distinct_live(self.index@, c));
                }
                return Err(StoreError::Io("compacted segment is full".to_owned()));
            }
            let new_loc = Location { generation: cg, offset, length: loc.length };
            proof {
                let k = key@;
                assert(self.index@.contains_key(k));
                let v = self.values@[k];
                let slice = self.segments@[loc.generation].subrange(
                    loc.offset as int,
                    loc.offset + loc.length,
                );
                let rec = RecordModel::Put { key: k, value: v };
                lemma_parse_record_is_bytes(slice);
                assert(slice.subrange(0, slice.len() as int) =~= slice);
                let old_seg = seg;
                let new_seg = seg + slice;
                lemma_replay_append(Map::empty(), seg, rec);
                assert forall|j: int| 0 <= j < i implies new_seg.subrange(
                    #[trigger] entries@[j].1.offset as int,
                    entries@[j].1.offset + entries@[j].1.length,
                ) == old_seg.subrange(
                    entries@[j].1.offset as int,
                    entries@[j].1.offset + entries@[j].1.length,
                ) by {
                    assert(new_seg.subrange(
                        entries@[j].1.offset as int,
                        entries@[j].1.offset + entries@[j].1.length,
                    ) =~= old_seg.subrange(
                        entries@[j].1.offset as int,
                        entries@[j].1.offset + entries@[j].1.length,
                    ));
                }
                assert(new_seg.subrange(offset as int, offset + loc.length) =~= slice);
                assert forall|j: int| 0 <= j < i implies (#[trigger] entries@[j]).0@ != k by {
                    assert(self.entries@[j].0@ != self.entries@[i as int].0@);
                }
                seg = new_seg;
                m = m.insert(k, v);
                idx = idx.insert(k, new_loc);
            }
            let ghost old_copies = copies@;
            let ghost old_entries = entries@;
            let ghost old_offset = offset;
            entries.push((key, new_loc));
            copies.push(loc);
            offset = offset + loc.length;
            i = i + 1;
            proof {
                assert(copies@.drop_last() =~= old_copies);
                assert(offset == total_length(copies@));
                assert(entries@.drop_last() =~= old_entries);
                assert(copies@.take(i - 1) =~= old_copies);
                assert forall|j: int| 0 <= j < i - 1 implies copies@.take(j) =~= old_copies.take(j) by {}
                assert(old_offset == total_length(old_copies));
                assert forall|k: Seq<char>| #[trigger] m.contains_key(k) implies exists|j: int|
                    0 <= j < i && (#[trigger] entries@[j]).0@ == k by {
                    if k == entries@[i - 1].0@ {
                    } else {
                        let j = choose|j: int|
                            0 <= j < i - 1 && (#[trigger] old_entries[j]).0@ == k;
                        assert(entries@[j] == old_entries[j]);
                    }
                }
                assert(idx.dom() =~= m.dom());
                assert forall|j: int| 0 <= j < i - 1 implies #[trigger] entries@[j] == old_entries[j] by {}
            }
        }
        proof {
            assert forall|k: Seq<char>| #[trigger] self.values@.contains_key(k) implies m.contains_key(k) && m[k] == self.values@[k] by {
                assert(self.index@.contains_key(k));
                let j = choose|j: int| 0 <= j < n && (#[trigger] self.entries@[j]).0@ == k;
                assert(entries@[j].0@ == k);
            }
            assert forall|k: Seq<char>| #[trigger] m.contains_key(k) implies self.values@.contains_key(k) by {
                let j = choose|j: int| 0 <= j < i && (#[trigger] entries@[j]).0@ == k;
                assert(self.entries@[j].0@ == k);
                assert(self.index@.contains_key(self.entries@[j].0@));
            }
            assert(m =~= self.values@);
        }
        let mut gens: Vec<u64> = Vec::new();
        gens.push(cg);
        gens.push(cg + 1);
        let next = LogState {
            entries,
            generations: gens,
            writer_len: 0,
            uncompacted: 0,
            index: Ghost(idx),
            values: Ghost(m),
            segments: Ghost(
                Map::<u64, Seq<u8>>::empty().insert(cg, seg).insert((cg + 1) as u64, Seq::empty()),
            ),
        };
        proof {
            let segs = next.segments@;
            assert(next.generations@ =~= seq![cg, (cg + 1) as u64]);
            let g = next.generations@;
            assert(g.drop_last() =~= seq![cg]);
            assert(g.drop_last().drop_last() =~= Seq::<u64>::empty());
            assert(segment_list(g.drop_last().drop_last(), segs) == Seq::<Seq<u8>>::empty());
            assert(segment_list(g.drop_last(), segs) =~= seq![seg]);
            assert(segment_list(g, segs) =~= seq![seg, Seq::<u8>::empty()]);
            let sl = seq![seg, Seq::<u8>::empty()];
            assert(sl.drop_last() =~= seq![seg]);
            assert(seq![seg].drop_last() =~= Seq::<Seq<u8>>::empty());
            assert(segments_total(Seq::<Seq<u8>>::empty()) == 0);
            assert(seq![seg].last() == seg);
            assert(segments_total(seq![seg]) == seg.len());
            assert(segments_total(sl) == seg.len());
            assert(next.unreferenced() == 0);
            lemma_replay_segments_push(Map::empty(), seq![seg], Seq::empty());
            lemma_replay_segments_push(Map::empty(), Seq::empty(), seg);
            assert(seq![seg, Seq::<u8>::empty()] =~= seq![seg].push(Seq::<u8>::empty()));
            assert(seq![seg] =~= Seq::<Seq<u8>>::empty().push(seg));
            assert forall|g: u64| #[trigger] segs.contains_key(g) <==> next.generations@.contains(g) by {
                if g == cg {
                    assert(next.generations@[0] == g);
                }
                if g == cg + 1 {
                    assert(next.generations@[1] == g);
                }
            }
            assert forall|a: int, b: int|
                0 <= a < b < next.entries@.len() implies (#[trigger] next.entries@[a]).0@
                != (#[trigger] next.entries@[b]).0@ by {
                assert(self.entries@[a].0@ != self.entries@[b].0@);
            }
            assert forall|k: Seq<char>| #[trigger] idx.contains_key(k) implies holds_at(
                segs,
                idx[k],
                k,
                m[k],
            ) && idx[k].generation == cg by {
                let j = choose|j: int| 0 <= j < i && (#[trigger] entries@[j]).0@ == k;
                assert(entries@[j].1 == idx[k]);
            }
            assert forall|k: Seq<char>| #[trigger] self.index@.contains_key(k) implies copies@.contains(self.index@[k]) by {
                let j = choose|j: int| 0 <= j < n && (#[trigger] self.entries@[j]).0@ == k;
                assert(copies@[j] == self.index@[k]);
            }
        }
        proof {
            assert(next.generations_wf());
            assert forall|k: Seq<char>| #[trigger] idx.contains_key(k) implies exists|j: int|
                0 <= j < next.entries@.len() && (#[trigger] next.entries@[j]).0@ == k by {
                assert(m.contains_key(k));
                let j = choose|j: int| 0 <= j < i && (#[trigger] entries@[j]).0@ == k;
                assert(next.entries@[j].0@ == k);
            }
            assert(next.entries_wf());
            assert(next.inv());
            assert forall|k: Seq<char>| #[trigger] self.index@.contains_key(k) implies exists|
                a: int,
            |
                0 <= a < copies@.len() && copies@[a] == self.index@[k] && idx[k] == Location {
                    generation: cg,
                    offset: total_length(copies@.take(a)) as u64,
                    length: copies@[a].length,
                } by {
                let j = choose|j: int| 0 <= j < n && (#[trigger] self.entries@[j]).0@ == k;
                assert(entries@[j].0@ == k);
                assert(copies@[j] == self.index@[k]);
            }
            assert(idx.dom() =~= self.index@.dom());
            reveal(copied_in_order);
            assert forall|a: int| 0 <= a < copies@.len() implies #[trigger] copies@[a]
                == self.index@[self.keys()[a]] by {
                assert(self.keys()[a] == self.entries@[a].0@);
            }
        }
        Ok((next, copies))
    }
    /// Points `key` at `loc`; returns where it pointed before, if anywhere.
    fn set_entry(&mut self, key: String, loc: Location) -> (r: Option<Location>)
        requires
            old(self).entries_wf(),
        ensures
            final(self).entries_wf(),
            final(self).index@ == old(self).index@.insert(key@, loc),
            final(self).keys() == if old(self).index@.contains_key(key@) {
                old(self).keys()
            } else {
                old(self).keys().push(key@)
            },
            entries_total(final(self).entries@) == entries_total(old(self).entries@) - (if old(
                self,
            ).index@.contains_key(key@) {
                old(self).index@[key@].length as int
            } else {
                0
            }) + loc.length,
            r == if old(self).index@.contains_key(key@) {
                Some(old(self).index@[key@])
            } else {
                None
            },
            final(self).generations == old(self).generations,
            final(self).segments == old(self).segments,
            final(self).values == old(self).values,
            final(self).writer_len == old(self).writer_len,
            final(self).uncompacted == old(self).uncompacted,
    {
        let found = self.find(&key);
        let ghost k = key@;
        let ghost old_entries = self.entries@;
        let ghost old_index = self.index@;
        proof {
            self.index@ = self.index@.insert(key@, loc);
        }
        match found {
            Some(i) => {
                let prev = self.entries[i].1;
                self.entries[i] = (key, loc);
                proof {
                    assert(self.keys() =~= old_entries.map_values(|e: (String, Location)| e.0@));
                    lemma_entries_total_update(old_entries, i as int, self.entries@[i as int]);
                    assert(self.entries@ =~= old_entries.update(i as int, self.entries@[i as int]));
                    assert forall|j: int| 0 <= j < self.entries@.len() implies (
                    #[trigger] self.entries@[j]).0@ == old_entries[j].0@ by {}
                    assert forall|q: Seq<char>| #[trigger]
                        self.index@.contains_key(q) implies exists|j: int|
                        0 <= j < self.entries@.len() && (#[trigger] self.entries@[j]).0@ == q by {
                        if q != k {
                            let j = choose|j: int|
                                0 <= j < old_entries.len() && (#[trigger] old_entries[j]).0@ == q;
                            assert(self.entries@[j].0@ == q);
                        } else {
                            assert(self.entries@[i as int].0@ == q);
                        }
                    }
                }
                Some(prev)
            },
            None => {
                self.entries.push((key, loc));
                proof {
                    let n = old_entries.len() as int;
                    assert(self.entries@.drop_last() =~= old_entries);
                    assert(self.keys() =~= old_entries.map_values(|e: (String, Location)| e.0@).push(
                        key@,
                    ));
                    assert(self.entries@[n].0@ == k);
                    assert forall|q: Seq<char>| #[trigger]
                        self.index@.contains_key(q) implies exists|j: int|
                        0 <= j < self.entries@.len() && (#[trigger] self.entries@[j]).0@ == q by {
                        if q != k {
                            let j = choose|j: int|
                                0 <= j < old_entries.len() && (#[trigger] old_entries[j]).0@ == q;
                            assert(self.entries@[j] == old_entries[j]);
                        } else {
                            assert(self.entries@[n].0@ == q);
                        }
                    }
                    assert forall|a: int, b: int|
                        0 <= a < b < self.entries@.len() implies (
                    #[trigger] self.entries@[a]).0@ != (#[trigger] self.entries@[b]).0@ by {
                        if b == n {
                            assert(old_index.contains_key(old_entries[a].0@));
                        }
                    }
                }
                None
            },
        }
    }

    /// Drops `key`; returns where it pointed, if anywhere.
    fn remove_entry(&mut self, key: &String) -> (r: Option<Location>)
        requires
            old(self).entries_wf(),
        ensures
            final(self).entries_wf(),
            final(self).index@ == old(self).index@.remove(key@),
            old(self).index@.contains_key(key@) ==> exists|j: int|
                0 <= j < old(self).keys().len() && old(self).keys()[j] == key@ && final(self).keys()
                    == old(self).keys().remove(j),
            !old(self).index@.contains_key(key@) ==> final(self).keys() == old(self).keys(),
            entries_total(final(self).entries@) == entries_total(old(self).entries@) - (if old(
                self,
            ).index@.contains_key(key@) {
                old(self).index@[key@].length as int
            } else {
                0
            }),
            r == if old(self).index@.contains_key(key@) {
                Some(old(self).index@[key@])
            } else {
                None
            },
            final(self).generations == old(self).generations,
            final(self).segments == old(self).segments,
            final(self).values == old(self).values,
            final(self).writer_len == old(self).writer_len,
            final(self).uncompacted == old(self).uncompacted,
    {
        let found = self.find(key);
        let ghost old_entries = self.entries@;
        match found {
            Some(i) => {
                let prev = self.entries[i].1;
                self.entries.remove(i);
                proof {
                    assert(old_entries.map_values(|e: (String, Location)| e.0@)[i as int] == key@);
                    lemma_entries_total_remove(old_entries, i as int);
                    assert(self.keys() =~= old_entries.map_values(|e: (String, Location)| e.0@).remove(
                        i as int,
                    ));
                    assert(old(self).keys() =~= old_entries.map_values(|e: (String, Location)| e.0@));
                    assert(old(self).keys()[i as int] == key@);
                    assert(self.keys() =~= old(self).keys().remove(i as int));
                    self.index@ = self.index@.remove(key@);
                    assert forall|j: int|
                        0 <= j < self.entries@.len() implies #[trigger] self.entries@[j]
                        == old_entries[if j < i {
                        j
                    } else {
                        j + 1
                    }] by {}
                    assert forall|q: Seq<char>| #[trigger]
                        self.index@.contains_key(q) implies exists|j: int|
                        0 <= j < self.entries@.len() && (#[trigger] self.entries@[j]).0@ == q by {
                        let j = choose|j: int|
                            0 <= j < old_entries.len() && (#[trigger] old_entries[j]).0@ == q;
                        if j < i {
                            assert(self.entries@[j] == old_entries[j]);
                        } else {
                            assert(j != i);
                            assert(self.entries@[j - 1] == old_entries[j]);
                        }
                    }
                    assert forall|a: int, b: int|
                        0 <= a < b < self.entries@.len() implies (
                    #[trigger] self.entries@[a]).0@ != (#[trigger] self.entries@[b]).0@ by {
                        let a2 = if a < i { a } else { a + 1 };
                        let b2 = if b < i { b } else { b + 1 };
                        assert(self.entries@[a] == old_entries[a2]);
                        assert(self.entries@[b] == old_entries[b2]);
                    }
                    assert forall|j: int|
                        #![trigger self.entries@[j]]
                        0 <= j < self.entries@.len() implies self.index@.contains_key(
                        self.entries@[j].0@,
                    ) && self.index@[self.entries@[j].0@] == self.entries@[j].1 by {
                        let j2 = if j < i { j } else { j + 1 };
                        assert(self.entries@[j] == old_entries[j2]);
                        assert(old_entries[j2].0@ != old_entries[i as int].0@);
                    }
                }
                Some(prev)
            },
            None => {
                proof {
                    assert(self.index@.remove(key@) =~= self.index@);
                }
                None
            },
        }
    }

    /// A replayed `Put`: points `key` at `loc`; the record it supersedes, if
    /// any, becomes garbage.
    fn replay_put(&mut self, key: String, loc: Location, unref: Ghost<int>)
        requires
            old(self).entries_wf(),
            unref@ >= 0,
            old(self).uncompacted == capped(unref@),
        ensures
            final(self).entries_wf(),
            final(self).index@ == old(self).index@.insert(key@, loc),
            final(self).keys() == if old(self).index@.contains_key(key@) {
                old(self).keys()
            } else {
                old(self).keys().push(key@)
            },
            final(self).generations == old(self).generations,
            final(self).segments == old(self).segments,
            final(self).values == old(self).values,
            final(self).writer_len == old(self).writer_len,
            final(self).uncompacted == if old(self).index@.contains_key(key@) {
                saturating(old(self).uncompacted, old(self).index@[key@].length)
            } else {
                old(self).uncompacted
            },
            ({
                let freed: int = if old(self).index@.contains_key(key@) {
                    old(self).index@[key@].length as int
                } else {
                    0
                };
                &&& entries_total(final(self).entries@) == entries_total(old(self).entries@)
                    - freed + loc.length
                &&& final(self).uncompacted == capped(unref@ + freed)
            }),
    {
        let ghost k = key@;
        let prev = self.set_entry(key, loc);
        if let Some(p) = prev {
            proof {
                lemma_capped_add(unref@, p.length);
            }
            self.uncompacted = self.uncompacted.saturating_add(p.length);
        }
    }

    /// A replayed `Remove` of `length` bytes: drops `key`; the removed record,
    /// if any, and the tombstone become garbage.
    fn replay_remove(&mut self, key: String, length: u64, unref: Ghost<int>)
        requires
            old(self).entries_wf(),
            unref@ >= 0,
            old(self).uncompacted == capped(unref@),
        ensures
            final(self).entries_wf(),
            final(self).index@ == old(self).index@.remove(key@),
            old(self).index@.contains_key(key@) ==> exists|j: int|
                0 <= j < old(self).keys().len() && old(self).keys()[j] == key@ && final(self).keys()
                    == old(self).keys().remove(j),
            !old(self).index@.contains_key(key@) ==> final(self).keys() == old(self).keys(),
            final(self).generations == old(self).generations,
            final(self).segments == old(self).segments,
            final(self).values == old(self).values,
            final(self).writer_len == old(self).writer_len,
            final(self).uncompacted == saturating(
                if old(self).index@.contains_key(key@) {
                    saturating(old(self).uncompacted, old(self).index@[key@].length)
                } else {
                    old(self).uncompacted
                },
                length,
            ),
            ({
                let freed: int = if old(self).index@.contains_key(key@) {
                    old(self).index@[key@].length as int
                } else {
                    0
                };
                &&& entries_total(final(self).entries@) == entries_total(old(self).entries@)
                    - freed
                &&& final(self).uncompacted == capped(unref@ + freed + length)
            }),
    {
        let ghost freed: int = if self.index@.contains_key(key@) {
            self.index@[key@].length as int
        } else {
            0
        };
        let prev = self.remove_entry(&key);
        if let Some(p) = prev {
            proof {
                lemma_capped_add(unref@, p.length);
            }
            self.uncompacted = self.uncompacted.saturating_add(p.length);
        }
        proof {
            lemma_capped_add(unref@ + freed, length);
        }
        self.uncompacted = self.uncompacted.saturating_add(length);
    }

    /// Adds segment `g`, holding `bytes`, after the others, and replays its
    /// records into the index.
    #[verifier::rlimit(100)]
    fn load(&mut self, g: u64, bytes: &Vec<u8>) -> (r: Result<(), StoreError>)
        requires
            old(self).segments_wf(),
            old(self).index_wf(),
            replay_segments(Map::empty(), segment_list(old(self).generations@, old(self).segments@)) == Some(
                old(self).values@,
            ),
            forall|i: int|
                0 <= i < old(self).generations@.len() ==> #[trigger] old(self).generations@[i] < g,
            old(self).unreferenced() >= 0,
            old(self).uncompacted == capped(old(self).unreferenced()),
        ensures
            r is Ok <==> replay(old(self).values@, bytes@) is Some,
            r matches Err(e) ==> e is Serialization,
            r is Ok ==> {
                &&& final(self).segments_wf()
                &&& final(self).index_wf()
                &&& final(self).values@ == replay(old(self).values@, bytes@)->0
                &&& (final(self).index@, final(self).uncompacted) == replay_positions(
                    old(self).index@,
                    old(self).uncompacted,
                    g,
                    bytes@,
                    0,
                )
                &&& final(self).generations@ == old(self).generations@.push(g)
                &&& final(self).segments@ == old(self).segments@.insert(g, bytes@)
                &&& final(self).unreferenced() >= 0
                &&& final(self).uncompacted == capped(final(self).unreferenced())
                &&& replay_segments(Map::empty(), segment_list(final(self).generations@, final(self).segments@))
                    == Some(final(self).values@)
            },
    {
        let ghost start = self.values@;
        let ghost counts = replay_positions(self.index@, self.uncompacted, g, bytes@, 0);
        let ghost old_gens = self.generations@;
        let ghost old_segs = self.segments@;
        let ghost base = segments_total(segment_list(old_gens, old_segs));
        self.generations.push(g);
        proof {
            self.segments@ = self.segments@.insert(g, bytes@);
            assert forall|q: Seq<char>| #[trigger] self.index@.contains_key(q) implies holds_at(
                self.segments@,
                self.index@[q],
                q,
                self.values@[q],
            ) by {
                assert(old_gens.contains(self.index@[q].generation));
            }
            assert forall|h: u64| #[trigger] self.segments@.contains_key(h) <==> self.generations@.contains(h) by {
                if h == g {
                    assert(self.generations@[old_gens.len() as int] == h);
                }
                if old_gens.contains(h) {
                    let j = choose|j: int| 0 <= j < old_gens.len() && old_gens[j] == h;
                    assert(self.generations@[j] == h);
                }
                if self.generations@.contains(h) && h != g {
                    let j = choose|j: int| 0 <= j < self.generations@.len() && self.generations@[j] == h;
                    assert(old_gens[j] == h);
                }
            }
        }
        let n = bytes.len();
        let mut pos: usize = 0;
        proof {
            assert(bytes@.subrange(0, n as int) =~= bytes@);
            assert(self.entries_wf());
            assert(self.index@.dom() == self.values@.dom());
            assert(self.index_wf());
        }
        while pos < n
            invariant
                n == bytes@.len(),
                pos <= n,
                start == old(self).values@,
                base + pos - entries_total(self.entries@) >= 0,
                self.uncompacted == capped(base + pos - entries_total(self.entries@)),
                counts == replay_positions(old(self).index@, old(self).uncompacted, g, bytes@, 0),
                counts == replay_positions(
                    self.index@,
                    self.uncompacted,
                    g,
                    bytes@.subrange(pos as int, n as int),
                    pos as int,
                ),
                self.segments_wf(),
                self.index_wf(),
                self.generations@ == old_gens.push(g),
                self.segments@ == old_segs.insert(g, bytes@),
                replay(start, bytes@) == replay(
                    self.values@,
                    bytes@.subrange(pos as int, n as int),
                ),
            decreases n - pos,
        {
            let ghost rest = bytes@.subrange(pos as int, n as int);
            let (rec, end) = match decode_record(bytes.as_slice(), pos) {
                Ok(d) => d,
                Err(e) => {
                    proof {
                        assert(rest.len() > 0);
                        assert(replay(self.values@, rest) is None);
                    }
                    return Err(e);
                },
            };
            proof {
                let len = end - pos;
                lemma_parse_record_is_bytes(rest);
                lemma_record_round_trip(rec@, Seq::empty());
                assert(rest.subrange(0, len) =~= bytes@.subrange(pos as int, end as int));
                assert(record_bytes(rec@) + Seq::<u8>::empty() =~= record_bytes(rec@));
                assert(rest.subrange(len, rest.len() as int) =~= bytes@.subrange(
                    end as int,
                    n as int,
                ));
            }
            let loc = Location { generation: g, offset: pos as u64, length: (end - pos) as u64 };
            let ghost unref = base + pos - entries_total(self.entries@);
            match rec {
                Record::Put { key, value } => {
                    proof {
                        self.values@ = self.values@.insert(key@, value@);
                    }
                    self.replay_put(key, loc, Ghost(unref));
                    proof {
                        assert(self.index@.dom() =~= self.values@.dom());
                    }
                },
                Record::Remove { key } => {
                    proof {
                        self.values@ = self.values@.remove(key@);
                    }
                    self.replay_remove(key, loc.length, Ghost(unref));
                    proof {
                        assert(self.index@.dom() =~= self.values@.dom());
                    }
                },
            }
            pos = end;
        }
        proof {
            assert(bytes@.subrange(n as int, n as int) =~= Seq::<u8>::empty());
            let gens = self.generations@;
            assert(gens.drop_last() =~= old_gens);
            assert forall|i: int| 0 <= i < old_gens.len() implies old_segs[#[trigger] old_gens[i]]
                == self.segments@[old_gens[i]] by {}
            lemma_segment_list_agree(old_gens, old_segs, self.segments@);
            lemma_replay_segments_push(Map::empty(), segment_list(old_gens, old_segs), bytes@);
            assert(segment_list(gens, self.segments@) == segment_list(old_gens, self.segments@).push(
                bytes@,
            ));
            assert(segment_list(old_gens, old_segs).push(bytes@).drop_last() =~= segment_list(
                old_gens,
                old_segs,
            ));
        }
        Ok(())
    }
}

impl Store {
    /// The generation of the segment that takes new records.
    pub closed spec fn current(&self) -> u64 {
        self.log.generations@.last()
    }

    /// The generations of the segments, oldest first.
    pub closed spec fn generations(&self) -> Seq<u64> {
        self.log.generations@
    }

    /// What each segment holds, by generation.
    pub closed spec fn segments(&self) -> Map<u64, Seq<u8>> {
        self.log.segments@
    }

    /// Where the latest record of each live key lies.
    pub closed spec fn index(&self) -> Map<Seq<char>, Location> {
        self.log.index@
    }

    /// The garbage bytes counted since the last compaction.
    pub closed spec fn garbage(&self) -> u64 {
        self.log.uncompacted
    }

    /// The change that waits for `commit`.
    pub closed spec fn change(&self) -> Change {
        match self.pending {
            Pending::Idle => Change::Idle,
            Pending::Put { key, value, .. } => Change::Put { key: key@, value: value@ },
            Pending::Remove { key, .. } => Change::Remove { key: key@ },
            Pending::Compaction { next, copies } => Change::Compaction {
                compact_generation: next.generations@[0],
                writer_generation: next.generations@[1],
                copies: copies@,
            },
        }
    }

    closed spec fn pending_wf(&self) -> bool {
        match self.pending {
            Pending::Idle => true,
            Pending::Put { key, value, length } => {
                let r = RecordModel::Put { key: key@, value: value@ };
                &&& record_fits(r)
                &&& length == record_bytes(r).len()
                &&& self.log.writer_len + length <= u64::MAX
            },
            Pending::Remove { key, length } => {
                let r = RecordModel::Remove { key: key@ };
                &&& record_fits(r)
                &&& length == record_bytes(r).len()
                &&& self.log.writer_len + length <= u64::MAX
                &&& self.log.index@.contains_key(key@)
            },
            Pending::Compaction { next, copies } => {
                let cur = self.log.generations@.last();
                &&& next.inv()
                &&& cur + 2 <= u64::MAX
                &&& next.generations@ == seq![(cur + 1) as u64, (cur + 2) as u64]
                &&& next.segments@ == Map::<u64, Seq<u8>>::empty().insert(
                    (cur + 1) as u64,
                    copied_bytes(self.log.segments@, copies@),
                ).insert((cur + 2) as u64, Seq::empty())
                &&& next.values@ == self.log.values@
                &&& next.uncompacted == 0
                &&& forall|k: Seq<char>|
                    #[trigger] next.index@.contains_key(k) ==> next.index@[k].generation == cur
                        + 1
                &&& compacted_at(self.log.index@, next.index@, copies@, (cur + 1) as u64)
            },
        }
    }

    /// The state's invariant.
    pub closed spec fn wf(&self) -> bool {
        &&& self.log.inv()
        &&& self.pending_wf()
    }

    /// The live keys in the order the index keeps them: the order in which
    /// they were first set, a key set again after a removal going last.
    pub closed spec fn key_order(&self) -> Seq<Seq<char>> {
        self.log.keys()
    }

    /// What the invariant gives callers: the index holds the live keys, each
    /// once in the key order, and new records go to the newest segment.
    pub proof fn lemma_wf_facts(&self)
        requires
            self.wf(),
        ensures
            self.index().dom() == self@.dom(),
            self.current() == self.generations().last(),
            self.segments().contains_key(self.current()),
            forall|k: Seq<char>| #[trigger] self.index().contains_key(k) <==> self.key_order().contains(k),
            forall|i: int, j: int|
                0 <= i < j < self.key_order().len() ==> self.key_order()[i] != self.key_order()[j],
    {
        let ks = self.log.keys();
        let es = self.log.entries@;
        assert forall|k: Seq<char>| #[trigger] self.index().contains_key(k) <==> ks.contains(k) by {
            if self.index().contains_key(k) {
                let i = choose|i: int| 0 <= i < es.len() && (#[trigger] es[i]).0@ == k;
                assert(ks[i] == k);
            }
            if ks.contains(k) {
                let i = choose|i: int| 0 <= i < ks.len() && ks[i] == k;
                assert(es[i].0@ == k);
            }
        }
        assert forall|i: int, j: int| 0 <= i < j < ks.len() implies ks[i] != ks[j] by {
            assert(ks[i] == es[i].0@ && ks[j] == es[j].0@);
        }
        assert(self.log.generations@.contains(self.current()));
    }

    /// The total length of the live records, those that the index points at.
    pub closed spec fn live_bytes(&self) -> int {
        entries_total(self.log.entries@)
    }

    /// The garbage count is the bytes of the segments that the live records
    /// do not take, capped at the largest `u64`: it is never below the bytes a
    /// compaction would reclaim unless it is at that cap.
    pub proof fn lemma_garbage_bound(&self)
        requires
            self.wf(),
        ensures
            segments_total(segment_list(self.generations(), self.segments())) >= self.live_bytes(),
            self.garbage() == capped(
                segments_total(segment_list(self.generations(), self.segments()))
                    - self.live_bytes(),
            ),
    {
    }

    /// Reopening a store from its own segment files, oldest first, rebuilds
    /// exactly its keys and values: at any point after a commit, what
    /// `recover` replays from the files is what the store holds.
    pub proof fn lemma_reopen(&self, files: Seq<(u64, Vec<u8>)>)
        requires
            self.wf(),
            files.len() == self.generations().len(),
            forall|i: int|
                0 <= i < files.len() ==> (#[trigger] files[i]).0 == self.generations()[i]
                    && files[i].1@ == self.segments()[files[i].0],
        ensures
            forall|i: int, j: int|
                0 <= i < j < files.len() ==> (#[trigger] files[i]).0 < (#[trigger] files[j]).0,
            replay_segments(Map::empty(), contents(files)) == Some(self@),
    {
        let gens = self.log.generations@;
        let segs = self.log.segments@;
        lemma_segment_list_map(gens, segs);
        assert(contents(files) =~= segment_list(gens, segs));
    }

    /// The garbage bytes counted since the last compaction.
    pub fn uncompacted(&self) -> (r: u64)
        ensures
            r == self.garbage(),
    {
        self.log.uncompacted
    }

    /// The generation of the segment that takes new records.
    pub fn current_generation(&self) -> (r: u64)
        requires
            self.wf(),
        ensures
            r == self.current(),
    {
        self.log.generations[self.log.generations.len() - 1]
    }

    /// Whether the garbage has grown past the threshold.
    pub fn needs_compaction(&self) -> (r: bool)
        ensures
            r == (self.garbage() > COMPACTION_THRESHOLD),
    {
        self.log.uncompacted > COMPACTION_THRESHOLD
    }

    /// Where the latest record of `key` lies, if the key is live; the bytes
    /// there hold a `Put` of the key to its value.
    pub fn lookup(&self, key: &String) -> (r: Option<Location>)
        requires
            self.wf(),
        ensures
            r is None <==> !self@.contains_key(key@),
            r matches Some(loc) ==> loc == self.index()[key@] && holds_at(
                self.segments(),
                loc,
                key@,
                self@[key@],
            ),
    {
        match self.log.find(key) {
            Some(i) => Some(self.log.entries[i].1),
            None => None,
        }
    }

    /// Begins setting `key` to `value`: returns the record to append to the
    /// current segment.
    pub fn begin_put(&mut self, key: String, value: String) -> (r: Result<Vec<u8>, StoreError>)
        requires
            old(self).wf(),
        ensures
            final(self).wf(),
            final(self)@ == old(self)@,
            final(self).segments() == old(self).segments(),
            final(self).generations() == old(self).generations(),
            final(self).current() == old(self).current(),
            final(self).index() == old(self).index(),
            final(self).key_order() == old(self).key_order(),
            final(self).garbage() == old(self).garbage(),
            match r {
                Ok(bytes) => {
                    &&& bytes@ == record_bytes(RecordModel::Put { key: key@, value: value@ })
                    &&& final(self).change() == Change::Put { key: key@, value: value@ }
                },
                Err(e) => {
                    &&& e is Io
                    &&& old(self).segments()[old(self).current()].len() + record_bytes(
                        RecordModel::Put { key: key@, value: value@ },
                    ).len() > u64::MAX
                    &&& final(self).change() == Change::Idle
                },
            },
    {
        self.pending = Pending::Idle;
        let rec = Record::Put { key, value };
        let bytes = rec.encode();
        let length = bytes.len() as u64;
        if u64::MAX - self.log.writer_len < length {
            return Err(StoreError::Io("segment is full".to_owned()));
        }
        match rec {
            Record::Put { key, value } => {
                self.pending = Pending::Put { key, value, length };
            },
            Record::Remove { .. } => {},
        }
        Ok(bytes)
    }

    /// Begins removing `key`: returns the tombstone to append to the current
    /// segment, or `KeyNotFound` where the key is not live.
    pub fn begin_remove(&mut self, key: String) -> (r: Result<Vec<u8>, StoreError>)
        requires
            old(self).wf(),
        ensures
            final(self).wf(),
            final(self)@ == old(self)@,
            final(self).segments() == old(self).segments(),
            final(self).generations() == old(self).generations(),
            final(self).current() == old(self).current(),
            final(self).index() == old(self).index(),
            final(self).key_order() == old(self).key_order(),
            final(self).garbage() == old(self).garbage(),
            !old(self)@.contains_key(key@) ==> r matches Err(StoreError::KeyNotFound),
            match r {
                Ok(bytes) => {
                    &&& old(self)@.contains_key(key@)
                    &&& bytes@ == record_bytes(RecordModel::Remove { key: key@ })
                    &&& final(self).change() == Change::Remove { key: key@ }
                },
                Err(e) => {
                    &&& e is KeyNotFound <==> !old(self)@.contains_key(key@)
                    &&& e is Io ==> old(self).segments()[old(self).current()].len()
                        + record_bytes(RecordModel::Remove { key: key@ }).len() > u64::MAX
                    &&& e is KeyNotFound || e is Io
                    &&& final(self).change() == Change::Idle
                },
            },
    {
        self.pending = Pending::Idle;
        if self.log.find(&key).is_none() {
            return Err(StoreError::KeyNotFound);
        }
        let rec = Record::Remove { key };
        let bytes = rec.encode();
        let length = bytes.len() as u64;
        if u64::MAX - self.log.writer_len < length {
            return Err(StoreError::Io("segment is full".to_owned()));
        }
        match rec {
            Record::Remove { key } => {
                self.pending = Pending::Remove { key, length };
            },
            Record::Put { .. } => {},
        }
        Ok(bytes)
    }

    /// Begins a compaction: reserves the two generations after the current
    /// one, and returns what to copy and what to delete.
    #[verifier::rlimit(100)]
    #[verifier::spinoff_prover]
    pub fn begin_compaction(&mut self) -> (r: Result<CompactionPlan, StoreError>)
        requires
            old(self).wf(),
        ensures
            final(self).wf(),
            final(self)@ == old(self)@,
            final(self).segments() == old(self).segments(),
            final(self).generations() == old(self).generations(),
            final(self).current() == old(self).current(),
            final(self).index() == old(self).index(),
            final(self).key_order() == old(self).key_order(),
            final(self).garbage() == old(self).garbage(),
            match r {
                Ok(plan) => {
                    &&& plan.compact_generation == old(self).current() + 1
                    &&& plan.writer_generation == old(self).current() + 2
                    &&& plan.stale@ == old(self).generations()
                    &&& forall|i: int|
                        0 <= i < plan.stale@.len() ==> #[trigger] plan.stale@[i]
                            < plan.compact_generation
                    &&& forall|k: Seq<char>|
                        #[trigger] old(self).index().contains_key(k) ==> plan.copies@.contains(
                            old(self).index()[k],
                        )
                    &&& copied_in_order(old(self).index(), old(self).key_order(), plan.copies@)
                    &&& final(self).change() == Change::Compaction {
                        compact_generation: plan.compact_generation,
                        writer_generation: plan.writer_generation,
                        copies: plan.copies@,
                    }
                },
                Err(e) => {
                    &&& e is Io
                    &&& old(self).current() + 2 > u64::MAX || exists|c: Seq<Location>|
                        distinct_live(old(self).index(), c) && total_length(c) > u64::MAX
                    &&& final(self).change() == Change::Idle
                },
            },
    {
        self.pending = Pending::Idle;
        let cur = self.log.generations[self.log.generations.len() - 1];
        if cur > u64::MAX - 2 {
            return Err(StoreError::Io("generation numbers are exhausted".to_owned()));
        }
        let (next, copies) = match self.log.compacted(cur + 1) {
            Ok(c) => c,
            Err(e) => {
                proof {
                    let c = choose|c: Seq<Location>|
                        distinct_live(self.log.index@, c) && total_length(c) > u64::MAX;
                    assert(distinct_live(old(self).index(), c));
                }
                return Err(e);
            },
        };
        let stale = self.log.generations.clone();
        let plan = CompactionPlan {
            compact_generation: cur + 1,
            writer_generation: cur + 2,
            copies: copies.clone(),
            stale,
        };
        proof {
            assert(plan.stale@ =~= self.log.generations@);
            assert forall|i: int| 0 <= i < plan.stale@.len() implies #[trigger] plan.stale@[i]
                < plan.compact_generation by {
                let g = self.log.generations@;
                if i < g.len() - 1 {
                    assert(g[i] < g[g.len() - 1]);
                }
            }
            assert(plan.copies@ =~= copies@);
        }
        self.pending = Pending::Compaction { next, copies: Ghost(copies@) };
        proof {
        }
        Ok(plan)
    }

    /// Rebuilds the state from the segments found on disk, oldest first, and
    /// starts a new, empty segment after the newest.
    #[verifier::rlimit(60)]
    pub fn recover(segments: Vec<(u64, Vec<u8>)>) -> (r: Result<Store, StoreError>)
        requires
            forall|i: int, j: int|
                0 <= i < j < segments@.len() ==> (#[trigger] segments@[i]).0 < (#[trigger] segments@[j]).0,
        ensures
            r is Ok <==> replay_segments(Map::empty(), contents(segments@)) is Some
                && next_generation(segments@) <= u64::MAX,
            r matches Err(e) ==> {
                &&& e is Serialization <==> replay_segments(Map::empty(), contents(segments@)) is None
                &&& e is Serialization || e is Io
            },
            r matches Ok(s) ==> {
                &&& s.wf()
                &&& s@ == replay_segments(Map::empty(), contents(segments@))->0
                &&& (s.index(), s.garbage()) == replay_segments_positions(
                    Map::empty(),
                    0,
                    segment_files(segments@),
                )
                &&& s.generations() == generations_of(segments@).push(next_generation(segments@) as u64)
                &&& s.current() == next_generation(segments@)
                &&& s.segments()[s.current()] == Seq::<u8>::empty()
                &&& s.index().dom() == s@.dom()
                &&& forall|k: Seq<char>|
                    #[trigger] s.index().contains_key(k) ==> holds_at(s.segments(), s.index()[k], k, s@[k])
                &&& forall|i: int|
                    0 <= i < segments@.len() ==> s.segments()[(#[trigger] segments@[i]).0] == segments@[i].1@
                &&& s.change() == Change::Idle
            },
    {
        let mut log = LogState {
            entries: Vec::new(),
            generations: Vec::new(),
            writer_len: 0,
            uncompacted: 0,
            index: Ghost(Map::empty()),
            values: Ghost(Map::empty()),
            segments: Ghost(Map::empty()),
        };
        let ghost all = contents(segments@);
        let ghost files = segment_files(segments@);
        proof {
            assert(all.skip(0) =~= all);
            assert(files.skip(0) =~= files);
            assert(log.generations@ =~= generations_of(segments@).take(0));
            assert(segment_list(log.generations@, log.segments@) == Seq::<Seq<u8>>::empty());
            assert(log.unreferenced() == 0);
            assert(log.index_wf());
        }
        let n = segments.len();
        let mut i: usize = 0;
        while i < n
            invariant
                n == segments@.len(),
                i <= n,
                all == contents(segments@),
                forall|a: int, b: int|
                    0 <= a < b < segments@.len() ==> (#[trigger] segments@[a]).0 < (#[trigger] segments@[b]).0,
                log.segments_wf(),
                log.index_wf(),
                replay_segments(Map::empty(), segment_list(log.generations@, log.segments@)) == Some(log.values@),
                replay_segments(Map::empty(), all) == replay_segments(log.values@, all.skip(i as int)),
                log.unreferenced() >= 0,
                log.uncompacted == capped(log.unreferenced()),
                files == segment_files(segments@),
                replay_segments_positions(Map::empty(), 0, files) == replay_segments_positions(
                    log.index@,
                    log.uncompacted,
                    files.skip(i as int),
                ),
                log.generations@ == generations_of(segments@).take(i as int),
                forall|j: int|
                    0 <= j < i ==> log.segments@[(#[trigger] segments@[j]).0] == segments@[j].1@,
            decreases n - i,
        {
            let g = segments[i].0;
            proof {
                assert forall|j: int| 0 <= j < log.generations@.len() implies #[trigger] log.generations@[j] < g by {
                    assert(log.generations@[j] == segments@[j].0);
                }
                assert(all.skip(i as int)[0] == segments@[i as int].1@);
                assert(all.skip(i as int).drop_first() =~= all.skip(i + 1));
                assert(files.skip(i as int)[0] == (segments@[i as int].0, segments@[i as int].1@));
                assert(files.skip(i as int).drop_first() =~= files.skip(i + 1));
            }
            let ghost before = log.segments@;
            match log.load(g, &segments[i].1) {
                Ok(()) => {},
                Err(e) => return Err(e),
            }
            i = i + 1;
            proof {
                assert(log.generations@ =~= generations_of(segments@).take(i as int));
                assert forall|j: int| 0 <= j < i implies log.segments@[(#[trigger] segments@[j]).0]
                    == segments@[j].1@ by {
                    if j < i - 1 {
                        assert(segments@[j].0 < segments@[i - 1].0);
                    }
                }
            }
        }
        let last: u64 = if n == 0 {
            0
        } else {
            segments[n - 1].0
        };
        if last == u64::MAX {
            return Err(StoreError::Io("generation numbers are exhausted".to_owned()));
        }
        let w = last + 1;
        let ghost old_gens = log.generations@;
        let ghost old_segs = log.segments@;
        log.generations.push(w);
        proof {
            assert(all.skip(n as int).len() == 0);
            assert(files.skip(n as int).len() == 0);
            assert(old_gens =~= generations_of(segments@));
            assert forall|j: int| 0 <= j < old_gens.len() implies #[trigger] old_gens[j] < w by {
                assert(old_gens[j] == segments@[j].0);
                if j < n - 1 {
                    assert(segments@[j].0 < segments@[n - 1].0);
                }
            }
            log.segments@ = log.segments@.insert(w, Seq::empty());
            assert forall|q: Seq<char>| #[trigger] log.index@.contains_key(q) implies holds_at(
                log.segments@,
                log.index@[q],
                q,
                log.values@[q],
            ) by {
                assert(old_gens.contains(log.index@[q].generation));
            }
            assert forall|h: u64| #[trigger] log.segments@.contains_key(h) <==> log.generations@.contains(h) by {
                if h == w {
                    assert(log.generations@[old_gens.len() as int] == h);
                }
                if old_gens.contains(h) {
                    let j = choose|j: int| 0 <= j < old_gens.len() && old_gens[j] == h;
                    assert(log.generations@[j] == h);
                }
                if log.generations@.contains(h) && h != w {
                    let j = choose|j: int| 0 <= j < log.generations@.len() && log.generations@[j] == h;
                    assert(old_gens[j] == h);
                }
            }
            assert(log.generations@.drop_last() =~= old_gens);
            assert forall|j: int| 0 <= j < old_gens.len() implies old_segs[#[trigger] old_gens[j]]
                == log.segments@[old_gens[j]] by {}
            lemma_segment_list_agree(old_gens, old_segs, log.segments@);
            lemma_replay_segments_push(
                Map::empty(),
                segment_list(old_gens, old_segs),
                Seq::empty(),
            );
            let before = segment_list(old_gens, old_segs);
            assert(segment_list(log.generations@, log.segments@) == before.push(Seq::<u8>::empty()));
            assert(before.push(Seq::<u8>::empty()).drop_last() =~= before);
            assert forall|j: int| 0 <= j < n implies log.segments@[(#[trigger] segments@[j]).0]
                == segments@[j].1@ by {
                assert(old_gens[j] == segments@[j].0);
            }
        }
        log.writer_len = 0;
        Ok(Store { log, pending: Pending::Idle })
    }

    /// Commits the pending change, once its bytes are written and flushed.
    #[verifier::rlimit(80)]
    pub fn commit(&mut self) -> (compaction_due: bool)
        requires
            old(self).wf(),
        ensures
            final(self).wf(),
            final(self).change() == Change::Idle,
            compaction_due == (final(self).garbage() > COMPACTION_THRESHOLD),
            match old(self).change() {
                Change::Put { key, value } => {
                    &&& final(self)@ == old(self)@.insert(key, value)
                    &&& final(self).generations() == old(self).generations()
                    &&& final(self).current() == old(self).current()
                    &&& final(self).index() == old(self).index().insert(
                        key,
                        Location {
                            generation: old(self).current(),
                            offset: old(self).segments()[old(self).current()].len() as u64,
                            length: record_bytes(RecordModel::Put { key, value }).len() as u64,
                        },
                    )
                    &&& final(self).segments() == old(self).segments().insert(
                        old(self).current(),
                        old(self).segments()[old(self).current()] + record_bytes(
                            RecordModel::Put { key, value },
                        ),
                    )
                    &&& final(self).garbage() == if old(self)@.contains_key(key) {
                        saturating(old(self).garbage(), old(self).index()[key].length)
                    } else {
                        old(self).garbage()
                    }
                },
                Change::Remove { key } => {
                    &&& final(self)@ == old(self)@.remove(key)
                    &&& final(self).generations() == old(self).generations()
                    &&& final(self).current() == old(self).current()
                    &&& final(self).index() == old(self).index().remove(key)
                    &&& final(self).segments() == old(self).segments().insert(
                        old(self).current(),
                        old(self).segments()[old(self).current()] + record_bytes(
                            RecordModel::Remove { key },
                        ),
                    )
                    &&& final(self).garbage() == saturating(
                        saturating(old(self).garbage(), old(self).index()[key].length),
                        record_bytes(RecordModel::Remove { key }).len() as u64,
                    )
                },
                Change::Compaction { compact_generation, writer_generation, copies } => {
                    &&& final(self)@ == old(self)@
                    &&& final(self).generations() == seq![compact_generation, writer_generation]
                    &&& final(self).segments() == Map::<u64, Seq<u8>>::empty().insert(
                        compact_generation,
                        copied_bytes(old(self).segments(), copies),
                    ).insert(writer_generation, Seq::empty())
                    &&& final(self).garbage() == 0
                    &&& final(self).current() == writer_generation
                    &&& compacted_at(old(self).index(), final(self).index(), copies, compact_generation)
                    &&& forall|k: Seq<char>|
                        #[trigger] final(self).index().contains_key(k) ==> final(self).index()[k].generation
                            == compact_generation
                },
                Change::Idle => {
                    &&& final(self)@ == old(self)@
                    &&& final(self).generations() == old(self).generations()
                    &&& final(self).index() == old(self).index()
                    &&& final(self).segments() == old(self).segments()
                    &&& final(self).garbage() == old(self).garbage()
                },
            },
    {
        let mut pending = Pending::Idle;
        std::mem::swap(&mut self.pending, &mut pending);
        proof {
            assert(old(self).pending_wf());
        }
        match pending {
            Pending::Idle => {},
            Pending::Put { key, value, length } => {
                self.log.apply_put(key, value, length);
            },
            Pending::Remove { key, length } => {
                self.log.apply_remove(key, length);
            },
            Pending::Compaction { next, .. } => {
                self.log = next;
            },
        }
        self.log.uncompacted > COMPACTION_THRESHOLD
    }
}

/// The value held by the bytes at an index location: they must be exactly
/// one `Put` record; anything else means the index and the log disagree.
pub fn stored_value(bytes: &[u8]) -> (r: Result<String, StoreError>)
    ensures
        match parse_record(bytes@) {
            Some((RecordModel::Put { value, .. }, n)) => if n == bytes@.len() {
                r matches Ok(v) && v@ == value
            } else {
                r matches Err(StoreError::UnexpectedCommand)
            },
            _ => r matches Err(StoreError::UnexpectedCommand),
        },
{
    assert(bytes@.subrange(0, bytes@.len() as int) =~= bytes@);
    match decode_record(bytes, 0) {
        Ok((Record::Put { value, .. }, end)) => if end == bytes.len() {
            Ok(value)
        } else {
            Err(StoreError::UnexpectedCommand)
        },
        _ => Err(StoreError::UnexpectedCommand),
    }
}

} // verus!
