//! What a log means: the map that replaying its records in order builds.

use vstd::prelude::*;
use crate::record::{
    lemma_parse_record_extend, lemma_parse_record_is_bytes, lemma_record_round_trip,
    parse_record, record_bytes, record_fits, RecordModel,
};

verus! {

/// The map after one record: a `Put` sets its key, a `Remove` drops it.
pub open spec fn apply_record(
    m: Map<Seq<char>, Seq<char>>,
    r: RecordModel,
) -> Map<Seq<char>, Seq<char>> {
    match r {
        RecordModel::Put { key, value } => m.insert(key, value),
        RecordModel::Remove { key } => m.remove(key),
    }
}

/// The map after replaying every record of `b` on `m`, in order; `None`
/// where `b` is not a sequence of whole records.
pub open spec fn replay(m: Map<Seq<char>, Seq<char>>, b: Seq<u8>) -> Option<
    Map<Seq<char>, Seq<char>>,
>
    decreases b.len(),
{
    if b.len() == 0 {
        Some(m)
    } else {
        match parse_record(b) {
            Some((r, n)) => if 0 < n <= b.len() {
                replay(apply_record(m, r), b.subrange(n, b.len() as int))
            } else {
                None
            },
            None => None,
        }
    }
}

/// The map after replaying segments in order, each a sequence of whole records.
pub open spec fn replay_segments(m: Map<Seq<char>, Seq<char>>, segs: Seq<Seq<u8>>) -> Option<
    Map<Seq<char>, Seq<char>>,
>
    decreases segs.len(),
{
    if segs.len() == 0 {
        Some(m)
    } else {
        match replay(m, segs[0]) {
            Some(m2) => replay_segments(m2, segs.drop_first()),
            None => None,
        }
    }
}

/// Replaying one more segment after others replays it on what they built.
pub proof fn lemma_replay_segments_push(
    m: Map<Seq<char>, Seq<char>>,
    segs: Seq<Seq<u8>>,
    seg: Seq<u8>,
)
    ensures
        replay_segments(m, segs.push(seg)) == match replay_segments(m, segs) {
            Some(m2) => replay(m2, seg),
            None => None,
        },
    decreases segs.len(),
{
    let all = segs.push(seg);
    if segs.len() == 0 {
        assert(all.drop_first() =~= Seq::<Seq<u8>>::empty());
        assert(all[0] == seg);
        match replay(m, seg) {
            Some(m2) => {
                assert(replay_segments(m2, all.drop_first()) == Some(m2));
            },
            None => {},
        }
    } else {
        assert(all[0] == segs[0]);
        assert(all.drop_first() =~= segs.drop_first().push(seg));
        match replay(m, segs[0]) {
            Some(m2) => lemma_replay_segments_push(m2, segs.drop_first(), seg),
            None => {},
        }
    }
}

/// The map after applying records in order.
pub open spec fn apply_all(m: Map<Seq<char>, Seq<char>>, rs: Seq<RecordModel>) -> Map<
    Seq<char>,
    Seq<char>,
>
    decreases rs.len(),
{
    if rs.len() == 0 {
        m
    } else {
        apply_record(apply_all(m, rs.drop_last()), rs.last())
    }
}

/// The bytes of records written one after another.
pub open spec fn log_bytes(rs: Seq<RecordModel>) -> Seq<u8>
    decreases rs.len(),
{
    if rs.len() == 0 {
        Seq::empty()
    } else {
        log_bytes(rs.drop_last()) + record_bytes(rs.last())
    }
}

/// Replaying two logs one after the other is replaying the second on what
/// the first built.
pub proof fn lemma_replay_concat(m: Map<Seq<char>, Seq<char>>, a: Seq<u8>, b: Seq<u8>)
    requires
        replay(m, a) is Some,
    ensures
        replay(m, a + b) == replay(replay(m, a)->0, b),
    decreases a.len(),
{
    if a.len() == 0 {
        assert(a + b =~= b);
    } else {
        let (r, n) = parse_record(a)->0;
        lemma_parse_record_extend(a, b);
        let ab = a + b;
        assert(ab.subrange(n, ab.len() as int) =~= a.subrange(n, a.len() as int) + b);
        lemma_replay_concat(apply_record(m, r), a.subrange(n, a.len() as int), b);
    }
}

/// Replaying a log and then one more record applies that record last.
pub proof fn lemma_replay_append(m: Map<Seq<char>, Seq<char>>, a: Seq<u8>, r: RecordModel)
    requires
        replay(m, a) is Some,
        record_fits(r),
    ensures
        replay(m, a + record_bytes(r)) == Some(apply_record(replay(m, a)->0, r)),
{
    lemma_replay_concat(m, a, record_bytes(r));
    lemma_replay_one(replay(m, a)->0, r);
}

/// Replaying the bytes of one record applies it.
pub proof fn lemma_replay_one(m: Map<Seq<char>, Seq<char>>, r: RecordModel)
    requires
        record_fits(r),
    ensures
        replay(m, record_bytes(r)) == Some(apply_record(m, r)),
{
    let b = record_bytes(r);
    lemma_record_round_trip(r, Seq::empty());
    assert(b + Seq::<u8>::empty() =~= b);
    lemma_parse_record_is_bytes(b);
    let e = b.subrange(b.len() as int, b.len() as int);
    assert(e.len() == 0);
    assert(replay(apply_record(m, r), e) == Some(apply_record(m, r)));
}

/// Reopening a log rebuilds what writing it built: replaying the bytes of
/// records written in order gives the map that applying those records gives.
pub proof fn lemma_recovery(rs: Seq<RecordModel>)
    requires
        forall|i: int| 0 <= i < rs.len() ==> record_fits(#[trigger] rs[i]),
    ensures
        replay(Map::empty(), log_bytes(rs)) == Some(apply_all(Map::empty(), rs)),
    decreases rs.len(),
{
    if rs.len() > 0 {
        let init = rs.drop_last();
        assert forall|i: int| 0 <= i < init.len() implies record_fits(#[trigger] init[i]) by {
            assert(init[i] == rs[i]);
        }
        lemma_recovery(init);
        assert(record_fits(rs[rs.len() - 1]));
        lemma_replay_append(Map::empty(), log_bytes(init), rs.last());
    } else {
        assert(log_bytes(rs).len() == 0);
    }
}

/// The value that the last write of `k` among `rs` left: the value of a
/// `Put`, or nothing after a `Remove` or where `k` was never written.
pub open spec fn last_write(rs: Seq<RecordModel>, k: Seq<char>) -> Option<Seq<char>>
    decreases rs.len(),
{
    if rs.len() == 0 {
        None
    } else {
        match rs.last() {
            RecordModel::Put { key, value } => if key == k {
                Some(value)
            } else {
                last_write(rs.drop_last(), k)
            },
            RecordModel::Remove { key } => if key == k {
                None
            } else {
                last_write(rs.drop_last(), k)
            },
        }
    }
}

/// After any run of sets and removes, each key holds the value of its most
/// recent set, and is absent where it was most recently removed or never set.
pub proof fn lemma_last_write_wins(rs: Seq<RecordModel>, k: Seq<char>)
    ensures
        apply_all(Map::empty(), rs).contains_key(k) <==> last_write(rs, k) is Some,
        last_write(rs, k) matches Some(v) ==> apply_all(Map::empty(), rs)[k] == v,
    decreases rs.len(),
{
    if rs.len() > 0 {
        lemma_last_write_wins(rs.drop_last(), k);
    }
}

/// Over any run of committed sets and removes, starting from an empty store,
/// the keys and values after each step are those that applying the run's
/// records so far gives; at the end each key holds the value of its latest
/// set, and is absent where it was removed after that or never set.
pub proof fn lemma_run(views: Seq<Map<Seq<char>, Seq<char>>>, rs: Seq<RecordModel>, k: Seq<char>)
    requires
        views.len() == rs.len() + 1,
        views[0] == Map::<Seq<char>, Seq<char>>::empty(),
        forall|i: int| 0 <= i < rs.len() ==> #[trigger] views[i + 1] == apply_record(views[i], rs[i]),
    ensures
        forall|i: int| 0 <= i < views.len() ==> #[trigger] views[i] == apply_all(Map::empty(), rs.take(i)),
        views.last().contains_key(k) <==> last_write(rs, k) is Some,
        last_write(rs, k) matches Some(v) ==> views.last()[k] == v,
{
    assert forall|i: int| 0 <= i < views.len() implies #[trigger] views[i] == apply_all(
        Map::empty(),
        rs.take(i),
    ) by {
        lemma_run_prefix(views, rs, i);
    }
    assert(rs.take(rs.len() as int) =~= rs);
    assert(views.last() == views[rs.len() as int]);
    lemma_last_write_wins(rs, k);
}

proof fn lemma_run_prefix(views: Seq<Map<Seq<char>, Seq<char>>>, rs: Seq<RecordModel>, i: int)
    requires
        views.len() == rs.len() + 1,
        views[0] == Map::<Seq<char>, Seq<char>>::empty(),
        forall|j: int| 0 <= j < rs.len() ==> #[trigger] views[j + 1] == apply_record(views[j], rs[j]),
        0 <= i < views.len(),
    ensures
        views[i] == apply_all(Map::empty(), rs.take(i)),
    decreases i,
{
    if i > 0 {
        lemma_run_prefix(views, rs, i - 1);
        assert(rs.take(i).drop_last() =~= rs.take(i - 1));
        assert(views[(i - 1) + 1] == apply_record(views[i - 1], rs[i - 1]));
    } else {
        assert(rs.take(0).len() == 0);
    }
}

} // verus!
