use vstd::prelude::*;
use vstd::utf8::{decode_utf8, encode_utf8, encode_utf8_decode_utf8, encode_utf8_valid_utf8};

use crate::command::{CommandPos, CommandView, EntryView};
use crate::files::{
    decimal_chars, digits_value, ends_with_log, gen_of_name, has_log_extension, is_digit,
    log_file_name, log_suffix, parsed_u64, trim_log_suffixes,
};
use crate::model::{apply_entry, entry_start, replay_log, replay_logs, Replay, StoreModel};
use crate::sled_engine::stored_text;

verus! {

/// Recording a `Put` counts as stale exactly the `len` of the position the key
/// had before (nothing if it had none), whatever generation that position lies
/// in; the command lies in the current generation from the writer's offset,
/// the writer moves past it, and compaction is due once more than 1 MiB is
/// stale.
pub proof fn law_set_bookkeeping(m: StoreModel, key: Seq<char>, value: Seq<char>, written: u64)
    requires
        m.set_fits(key, written),
    ensures
        ({
            let m2 = m.set(key, value, written);
            &&& m.index.contains_key(key) ==> m2.need_compact == m.need_compact + m.index[key].len
            &&& !m.index.contains_key(key) ==> m2.need_compact == m.need_compact
            &&& m2.writer_pos == m.writer_pos + written
            &&& m2.cur_gen == m.cur_gen
            &&& m2.readers == m.readers
            &&& m2.index == m.index.insert(
                key,
                CommandPos { gen: m.cur_gen, pos: m.writer_pos, len: (m.writer_pos + written) as u64 },
            )
            &&& m2.contents == m.contents.insert(key, value)
            &&& m2.compaction_due() <==> m2.need_compact > 1048576
        }),
{
}

/// Counting `len` more stale bytes adds `len` to the count and changes
/// nothing else; appending `written` bytes moves the writer by `written`;
/// dropping a key from the index leaves the counters alone.
pub proof fn law_counters(m: StoreModel, len: u64, written: u64, key: Seq<char>)
    requires
        m.need_compact + len <= u64::MAX,
        m.writer_pos + written <= u64::MAX,
    ensures
        m.count_stale(len).need_compact == m.need_compact + len,
        m.count_stale(len).writer_pos == m.writer_pos,
        m.count_stale(len).index == m.index,
        m.count_stale(len).contents == m.contents,
        m.count_stale(len).cur_gen == m.cur_gen,
        m.count_stale(len).readers == m.readers,
        m.advance(written).writer_pos == m.writer_pos + written,
        m.advance(written).need_compact == m.need_compact,
        m.advance(written).index == m.index,
        m.advance(written).contents == m.contents,
        m.advance(written).cur_gen == m.cur_gen,
        m.remove(key).index == m.index.remove(key),
        m.remove(key).contents == m.contents.remove(key),
        m.remove(key).need_compact == m.need_compact,
        m.remove(key).writer_pos == m.writer_pos,
        m.remove(key).cur_gen == m.cur_gen,
{
}

/// The compaction steps: claiming two generations moves the current one up by
/// two; a new writer starts at its offset with a reader of the current
/// generation; readers are added and dropped one by one; relocating moves one
/// key to a new position; finishing clears the stale count. None of them
/// changes what the store holds.
pub proof fn law_compaction_steps(m: StoreModel, pos: u64, gen: u64, key: Seq<char>, p: CommandPos)
    requires
        m.cur_gen + 2 <= u64::MAX,
    ensures
        m.begin_compaction().cur_gen == m.cur_gen + 2,
        m.begin_compaction().index == m.index && m.begin_compaction().contents == m.contents,
        m.begin_compaction().need_compact == m.need_compact,
        m.begin_compaction().writer_pos == m.writer_pos,
        m.switch_writer(pos).writer_pos == pos,
        m.switch_writer(pos).readers == m.readers.insert(m.cur_gen),
        m.switch_writer(pos).index == m.index && m.switch_writer(pos).contents == m.contents,
        m.switch_writer(pos).need_compact == m.need_compact,
        m.add_reader(gen).readers == m.readers.insert(gen),
        m.add_reader(gen).index == m.index && m.add_reader(gen).contents == m.contents,
        m.drop_reader(gen).readers == m.readers.remove(gen),
        m.drop_reader(gen).index == m.index && m.drop_reader(gen).contents == m.contents,
        m.relocate(key, p).index == m.index.insert(key, p),
        m.relocate(key, p).contents == m.contents,
        m.relocate(key, p).need_compact == m.need_compact,
        m.relocate(key, p).writer_pos == m.writer_pos,
        m.finish_compaction().need_compact == 0,
        m.finish_compaction().index == m.index && m.finish_compaction().contents == m.contents,
        m.finish_compaction().writer_pos == m.writer_pos,
        m.finish_compaction().cur_gen == m.cur_gen,
{
}

/// A position built from a generation and a byte range keeps the generation,
/// the start as its offset and the end of the range in its `len` field; and a
/// store opened on logs writes next to the generation after the last one given
/// (1 if none is).
pub proof fn law_positions_and_next_gen(gen: u64, start: u64, end: u64, gens: Seq<u64>)
    ensures
        CommandPos::of_range(gen, start, end) == (CommandPos { gen, pos: start, len: end }),
        gens.len() == 0 ==> crate::model::next_gen_of(gens) == 1,
        gens.len() > 0 ==> crate::model::next_gen_of(gens) == gens[gens.len() - 1] + 1,
{
}

/// Replaying a `Put` of `key` found in generation `gen` from offset `start`
/// to `end` points `key` there, sets its value, and counts as stale exactly
/// the `len` of the position `key` had (nothing if none), whatever generation
/// that position lies in.
pub proof fn law_replay_put(r: Replay, gen: u64, start: u64, key: Seq<char>, value: Seq<char>, end: u64)
    ensures
        ({
            let r2 = apply_entry(r, gen, start, EntryView { command: CommandView::Put { key, value }, end });
            &&& r2.index == r.index.insert(key, CommandPos { gen, pos: start, len: end })
            &&& r2.contents == r.contents.insert(key, value)
            &&& r2.stale == r.stale + (if r.index.contains_key(key) {
                r.index[key].len as int
            } else {
                0
            })
        }),
{
}

/// Replaying a removal of `key` found in generation `gen` from offset `start`
/// to `end` drops `key`, and counts as stale the `len` of the position `key`
/// had (nothing if none), whatever generation it lies in, plus the removal's
/// own `end - start` bytes.
pub proof fn law_replay_remove(r: Replay, gen: u64, start: u64, key: Seq<char>, end: u64)
    ensures
        ({
            let r2 = apply_entry(r, gen, start, EntryView { command: CommandView::Remove { key }, end });
            &&& r2.index == r.index.remove(key)
            &&& r2.contents == r.contents.remove(key)
            &&& r2.stale == r.stale + (if r.index.contains_key(key) {
                r.index[key].len as int
            } else {
                0
            }) + (end - start)
        }),
{
}

/// Replaying logs: nothing for no logs; an empty log of a further generation
/// adds nothing; one more entry at the end of the last log is replayed on top
/// of what the logs gave before, starting where the previous entry of that log
/// ended (or at offset 0).
pub proof fn law_replay_logs_steps(gens: Seq<u64>, logs: Seq<Seq<EntryView>>, g: u64, e: EntryView)
    requires
        gens.len() == logs.len(),
    ensures
        replay_logs(Seq::empty(), Seq::empty()) == (Replay { index: Map::empty(), contents: Map::empty(), stale: 0 }),
        replay_logs(gens.push(g), logs.push(Seq::empty())) == replay_logs(gens, logs),
        gens.len() > 0 ==> replay_logs(gens, logs.update(logs.len() - 1, logs.last().push(e))) == apply_entry(
            replay_logs(gens, logs),
            gens.last(),
            if logs.last().len() == 0 {
                0
            } else {
                logs.last().last().end
            },
            e,
        ),
{
    assert(gens.push(g).drop_last() =~= gens);
    assert(logs.push(Seq::<EntryView>::empty()).drop_last() =~= logs);
    if gens.len() > 0 {
        let l2 = logs.update(logs.len() - 1, logs.last().push(e));
        assert(l2.drop_last() =~= logs.drop_last());
        assert(l2.last() == logs.last().push(e));
        assert(logs.last().push(e).drop_last() =~= logs.last());
    }
}

/// After a `Put` of `value` under `key` is recorded, the store maps `key` to
/// `value`, at the position where the command was written, and every other
/// key as before.
pub proof fn law_read_after_write(m: StoreModel, key: Seq<char>, value: Seq<char>, written: u64)
    requires
        m.wf(),
        m.set_fits(key, written),
    ensures
        ({
            let m2 = m.set(key, value, written);
            &&& m2.wf()
            &&& m2.contents.contains_key(key)
            &&& m2.contents[key] == value
            &&& m2.index[key] == CommandPos::of_range(m.cur_gen, m.writer_pos, (m.writer_pos + written) as u64)
            &&& forall|k: Seq<char>| k != key ==> (#[trigger] m2.contents.contains_key(k) <==> m.contents.contains_key(k))
            &&& forall|k: Seq<char>| k != key && m.contents.contains_key(k) ==> #[trigger] m2.contents[k] == m.contents[k]
        }),
{
    let m2 = m.set(key, value, written);
    assert(m2.index.dom() =~= m2.contents.dom());
}

/// After `key` is removed the store no longer holds it, and holds every other
/// key as before.
pub proof fn law_remove_forgets(m: StoreModel, key: Seq<char>)
    requires
        m.wf(),
    ensures
        ({
            let m2 = m.remove(key);
            &&& m2.wf()
            &&& !m2.contents.contains_key(key)
            &&& !m2.index.contains_key(key)
            &&& forall|k: Seq<char>| k != key ==> (#[trigger] m2.contents.contains_key(k) <==> m.contents.contains_key(k))
            &&& forall|k: Seq<char>| k != key && m.contents.contains_key(k) ==> #[trigger] m2.contents[k] == m.contents[k]
        }),
{
    let m2 = m.remove(key);
    assert(m2.index.dom() =~= m2.contents.dom());
}

/// The sum of the first `i` copied lengths: where the `i`-th relocated command
/// starts in the compacted log.
pub open spec fn copied_before(copied: Seq<u64>, i: int) -> int
    decreases i,
{
    if i <= 0 {
        0
    } else {
        copied_before(copied, i - 1) + copied[i - 1]
    }
}

/// Relocates the live commands of the keys `order[..n]` to consecutive
/// offsets of generation `gen`, the `i`-th being `copied[i]` bytes long.
pub open spec fn relocate_all(m: StoreModel, gen: u64, order: Seq<Seq<char>>, copied: Seq<u64>, n: int) -> StoreModel
    decreases n,
{
    if n <= 0 {
        m
    } else {
        let start = copied_before(copied, n - 1);
        relocate_all(m, gen, order, copied, n - 1).relocate(
            order[n - 1],
            CommandPos::of_range(gen, start as u64, (start + copied[n - 1]) as u64),
        )
    }
}

/// Drops the readers of the generations `gens`.
pub open spec fn drop_readers(m: StoreModel, gens: Seq<u64>) -> StoreModel
    decreases gens.len(),
{
    if gens.len() == 0 {
        m
    } else {
        drop_readers(m, gens.drop_last()).drop_reader(gens.last())
    }
}

/// A whole compaction as the store's steps make it: claim two generations,
/// open the new writer at `writer_pos` and the compacted log, copy every live
/// command in key order (`copied[i]` bytes for the `i`-th key), drop the
/// readers of the older generations, and clear the stale count.
pub open spec fn compacted(m: StoreModel, order: Seq<Seq<char>>, writer_pos: u64, copied: Seq<u64>, stale: Seq<u64>) -> StoreModel {
    let gen = (m.cur_gen + 1) as u64;
    let m1 = m.begin_compaction().switch_writer(writer_pos).add_reader(gen);
    drop_readers(relocate_all(m1, gen, order, copied, order.len() as int), stale).finish_compaction()
}

proof fn lemma_relocate_all(m: StoreModel, gen: u64, order: Seq<Seq<char>>, copied: Seq<u64>, n: int)
    requires
        m.wf(),
        0 <= n <= order.len(),
        order.len() == copied.len(),
        order.no_duplicates(),
        order.to_set() == m.index.dom(),
    ensures
        ({
            let r = relocate_all(m, gen, order, copied, n);
            &&& r.wf()
            &&& r.contents == m.contents
            &&& r.index.dom() == m.index.dom()
            &&& r.cur_gen == m.cur_gen
            &&& r.writer_pos == m.writer_pos
            &&& r.readers == m.readers
            &&& forall|i: int| 0 <= i < n ==> #[trigger] r.index[order[i]] == CommandPos::of_range(
                gen,
                copied_before(copied, i) as u64,
                (copied_before(copied, i) + copied[i]) as u64,
            )
        }),
    decreases n,
{
    if n > 0 {
        lemma_relocate_all(m, gen, order, copied, n - 1);
        let prev = relocate_all(m, gen, order, copied, n - 1);
        assert(order.to_set().contains(order[n - 1]));
        assert(prev.index.insert(order[n - 1], CommandPos::of_range(
            gen,
            copied_before(copied, n - 1) as u64,
            (copied_before(copied, n - 1) + copied[n - 1]) as u64,
        )).dom() =~= prev.index.dom());
        let r = relocate_all(m, gen, order, copied, n);
        assert forall|i: int| 0 <= i < n implies #[trigger] r.index[order[i]] == CommandPos::of_range(
            gen,
            copied_before(copied, i) as u64,
            (copied_before(copied, i) + copied[i]) as u64,
        ) by {
            if i < n - 1 {
                assert(order[i] != order[n - 1]);
            }
        }
    }
}

proof fn lemma_drop_readers(m: StoreModel, gens: Seq<u64>)
    ensures
        ({
            let r = drop_readers(m, gens);
            &&& r.cur_gen == m.cur_gen
            &&& r.index == m.index
            &&& r.contents == m.contents
            &&& r.readers == m.readers.difference(gens.to_set())
            &&& r == (StoreModel { readers: m.readers.difference(gens.to_set()), ..m })
        }),
    decreases gens.len(),
{
    if gens.len() > 0 {
        lemma_drop_readers(m, gens.drop_last());
        assert(gens.to_set() =~= gens.drop_last().to_set().insert(gens.last())) by {
            assert forall|x: u64| gens.to_set().contains(x) <==> (gens.drop_last().to_set().contains(x) || x == gens.last()) by {
                if gens.contains(x) {
                    let k = choose|k: int| 0 <= k < gens.len() && gens[k] == x;
                    if k < gens.len() - 1 {
                        assert(gens.drop_last()[k] == x);
                    }
                }
                if gens.drop_last().contains(x) {
                    let k = choose|k: int| 0 <= k < gens.drop_last().len() && gens.drop_last()[k] == x;
                    assert(gens[k] == x);
                }
                if x == gens.last() {
                    assert(gens[gens.len() - 1] == x);
                }
            }
        }
        assert(drop_readers(m, gens).readers =~= m.readers.difference(gens.to_set()));
    } else {
        assert(m.readers.difference(gens.to_set()) =~= m.readers);
    }
}

/// Compaction keeps what the store holds: afterwards it maps every key to the
/// same value as before, every live command lies in the compacted generation,
/// one after another in key order from offset 0, no byte counts as stale, and
/// when the readers dropped are those of the generations older than the
/// compacted one, the readers left are exactly those of the compacted and the
/// new current generation.
pub proof fn law_compaction_keeps_contents(
    m: StoreModel,
    order: Seq<Seq<char>>,
    writer_pos: u64,
    copied: Seq<u64>,
    stale: Seq<u64>,
)
    requires
        m.wf(),
        order.no_duplicates(),
        order.to_set() == m.index.dom(),
        copied.len() == order.len(),
        m.cur_gen + 2 <= u64::MAX,
        stale.to_set() == m.begin_compaction().switch_writer(writer_pos).add_reader((m.cur_gen + 1) as u64).stale_gens((m.cur_gen + 1) as u64),
    ensures
        ({
            let gen = (m.cur_gen + 1) as u64;
            let r = compacted(m, order, writer_pos, copied, stale);
            &&& r.wf()
            &&& r.contents == m.contents
            &&& r.index.dom() == m.index.dom()
            &&& r.need_compact == 0
            &&& forall|i: int| 0 <= i < order.len() ==> #[trigger] r.index[order[i]] == CommandPos::of_range(
                gen,
                copied_before(copied, i) as u64,
                (copied_before(copied, i) + copied[i]) as u64,
            )
            &&& r.readers == set![gen, (gen + 1) as u64]
            &&& writer_pos == 0 ==> r == compact_model(m, order, copied)
        }),
{
    let gen = (m.cur_gen + 1) as u64;
    let m1 = m.begin_compaction().switch_writer(writer_pos).add_reader(gen);
    lemma_relocate_all(m1, gen, order, copied, order.len() as int);
    let m2 = relocate_all(m1, gen, order, copied, order.len() as int);
    lemma_drop_readers(m2, stale);
    let r = compacted(m, order, writer_pos, copied, stale);
    assert(m1.readers =~= m.readers.insert((gen + 1) as u64).insert(gen));
    assert forall|g: u64| r.readers.contains(g) <==> (g == gen || g == gen + 1) by {
        if m.readers.contains(g) {
            assert(g <= m.cur_gen);
        }
    }
    assert(r.readers =~= set![gen, (gen + 1) as u64]);
    assert(r.wf());
    if writer_pos == 0 {
        let c = compact_model(m, order, copied);
        assert(c.readers =~= r.readers);
        assert(c == r);
    }
}

/// A change a client makes to a store between opening and closing it: a `Put`
/// of a value, a removal, each with the number of bytes its command took, or
/// a compaction that copies each live command exactly: the `i`-th key of
/// `order` (the store's key order) takes `copied[i]` bytes in the compacted
/// log, and the new current log starts empty.
pub enum Op {
    Put { key: Seq<char>, value: Seq<char>, written: u64 },
    Remove { key: Seq<char>, written: u64 },
    Compact { order: Seq<Seq<char>>, copied: Seq<u64> },
}

/// The state after a whole compaction whose new writer starts at offset 0 and
/// which drops the readers of the generations older than the compacted one.
pub open spec fn compact_model(m: StoreModel, order: Seq<Seq<char>>, copied: Seq<u64>) -> StoreModel {
    let gen = (m.cur_gen + 1) as u64;
    let m1 = m.begin_compaction().switch_writer(0).add_reader(gen);
    let r = relocate_all(m1, gen, order, copied, order.len() as int).finish_compaction();
    StoreModel { readers: r.readers.filter(|g: u64| g >= gen), ..r }
}

/// The state after one change: a `Put` is recorded; a removal of a key the
/// store holds drops it, appends its command and counts the bytes it
/// supersedes as stale; a removal of an absent key fails and changes nothing.
pub open spec fn apply_op(m: StoreModel, op: Op) -> StoreModel {
    match op {
        Op::Put { key, value, written } => m.set(key, value, written),
        Op::Remove { key, written } => if m.index.contains_key(key) {
            m.remove(key).advance(written).count_stale(m.index[key].len)
        } else {
            m
        },
        Op::Compact { order, copied } => compact_model(m, order, copied),
    }
}

pub open spec fn apply_ops(m: StoreModel, ops: Seq<Op>) -> StoreModel
    decreases ops.len(),
{
    if ops.len() == 0 {
        m
    } else {
        apply_op(apply_ops(m, ops.drop_last()), ops.last())
    }
}

/// Every compaction among `ops` copies the keys of the store in an order
/// that lists each of them once, has a length for each, and has two
/// generations left to claim.
pub open spec fn ops_valid(m: StoreModel, ops: Seq<Op>) -> bool
    decreases ops.len(),
{
    if ops.len() == 0 {
        true
    } else {
        &&& ops_valid(m, ops.drop_last())
        &&& match ops.last() {
            Op::Compact { order, copied } => {
                let before = apply_ops(m, ops.drop_last());
                &&& before.cur_gen + 2 <= u64::MAX
                &&& order.no_duplicates()
                &&& order.to_set() == before.index.dom()
                &&& copied.len() == order.len()
            },
            _ => true,
        }
    }
}

/// The log files on disk: the generations in ascending order and the entries
/// of each; the last one is the current log.
pub struct Disk {
    pub gens: Seq<u64>,
    pub logs: Seq<Seq<EntryView>>,
}

/// The compacted log: the live commands in key order, one after another.
pub open spec fn compact_log(m: StoreModel, order: Seq<Seq<char>>, copied: Seq<u64>) -> Seq<EntryView> {
    Seq::new(
        order.len(),
        |i: int|
            EntryView {
                command: CommandView::Put { key: order[i], value: m.contents[order[i]] },
                end: copied_before(copied, i + 1) as u64,
            },
    )
}

/// Appends `e` to the current log.
pub open spec fn append(d: Disk, e: EntryView) -> Disk {
    Disk { gens: d.gens, logs: d.logs.update(d.logs.len() - 1, d.logs.last().push(e)) }
}

/// The log files after the changes `ops`, made to a store in state `m` whose
/// files were `d`.
pub open spec fn disk_after(m: StoreModel, d: Disk, ops: Seq<Op>) -> Disk
    decreases ops.len(),
{
    if ops.len() == 0 {
        d
    } else {
        let before = apply_ops(m, ops.drop_last());
        let disk = disk_after(m, d, ops.drop_last());
        match ops.last() {
            Op::Put { key, value, written } => append(
                disk,
                EntryView {
                    command: CommandView::Put { key, value },
                    end: (before.writer_pos + written) as u64,
                },
            ),
            Op::Remove { key, written } => if before.index.contains_key(key) {
                append(
                    disk,
                    EntryView {
                        command: CommandView::Remove { key },
                        end: (before.writer_pos + written) as u64,
                    },
                )
            } else {
                disk
            },
            Op::Compact { order, copied } => {
                let gen = (before.cur_gen + 1) as u64;
                Disk {
                    gens: seq![gen, (gen + 1) as u64],
                    logs: seq![compact_log(before, order, copied), Seq::empty()],
                }
            },
        }
    }
}

/// The store's state and its log files agree: replaying the files gives the
/// store's index and values, the current log is the last one and ends where
/// the writer is.
pub open spec fn disk_matches(m: StoreModel, d: Disk) -> bool {
    &&& m.wf()
    &&& d.gens.len() == d.logs.len()
    &&& d.gens.len() >= 1
    &&& d.gens.last() == m.cur_gen
    &&& entry_start(d.logs.last(), d.logs.last().len() as int) == m.writer_pos
    &&& replay_logs(d.gens, d.logs).index == m.index
    &&& replay_logs(d.gens, d.logs).contents == m.contents
}

proof fn lemma_append(m: StoreModel, d: Disk, e: EntryView)
    requires
        disk_matches(m, d),
        e.end >= 0,
    ensures
        ({
            let d2 = append(d, e);
            let r = replay_logs(d2.gens, d2.logs);
            let start = m.writer_pos;
            let prev = replay_logs(d.gens, d.logs);
            &&& d2.gens == d.gens
            &&& d2.logs.len() == d.logs.len()
            &&& entry_start(d2.logs.last(), d2.logs.last().len() as int) == e.end
            &&& r.index == apply_entry(prev, m.cur_gen, start, e).index
            &&& r.contents == apply_entry(prev, m.cur_gen, start, e).contents
        }),
{
    let d2 = append(d, e);
    let l = d.logs.last();
    assert(d2.logs.drop_last() =~= d.logs.drop_last());
    assert(d2.logs.last() == l.push(e));
    assert(l.push(e).drop_last() =~= l);
    assert(entry_start(l.push(e), l.len() as int) == entry_start(l, l.len() as int));
}

proof fn lemma_compact_log_replay(m: StoreModel, gen: u64, order: Seq<Seq<char>>, copied: Seq<u64>, n: int)
    requires
        order.no_duplicates(),
        copied.len() == order.len(),
        0 <= n <= order.len(),
    ensures
        ({
            let rep = replay_log(crate::model::empty_replay(), gen, compact_log(m, order, copied).take(n));
            &&& rep.index.dom() == order.take(n).to_set()
            &&& rep.contents.dom() == order.take(n).to_set()
            &&& forall|i: int| 0 <= i < n ==> #[trigger] rep.index[order[i]] == CommandPos::of_range(
                gen,
                copied_before(copied, i) as u64,
                (copied_before(copied, i) + copied[i]) as u64,
            )
            &&& forall|i: int| 0 <= i < n ==> #[trigger] rep.contents[order[i]] == m.contents[order[i]]
        }),
    decreases n,
{
    let cl = compact_log(m, order, copied);
    if n == 0 {
        assert(cl.take(0) =~= Seq::<EntryView>::empty());
        assert(order.take(0).to_set() =~= Set::<Seq<char>>::empty());
    } else {
        lemma_compact_log_replay(m, gen, order, copied, n - 1);
        assert(cl.take(n).drop_last() =~= cl.take(n - 1));
        assert(entry_start(cl.take(n), n - 1) == copied_before(copied, n - 1) as u64);
        let k = order[n - 1];
        let u = order.take(n);
        let t = order.take(n - 1);
        assert forall|x: Seq<char>| u.to_set().contains(x) <==> (t.to_set().contains(x) || x == k) by {
            if u.contains(x) {
                let j = choose|j: int| 0 <= j < u.len() && u[j] == x;
                if j < n - 1 {
                    assert(t[j] == x);
                }
            }
            if t.contains(x) {
                let j = choose|j: int| 0 <= j < t.len() && t[j] == x;
                assert(u[j] == x);
            }
            if x == k {
                assert(u[n - 1] == x);
            }
        }
        let rep = replay_log(crate::model::empty_replay(), gen, cl.take(n));
        assert(rep.index.dom() =~= order.take(n).to_set());
        assert(rep.contents.dom() =~= order.take(n).to_set());
        assert forall|i: int| 0 <= i < n - 1 implies order[i] != k by {}
    }
}

proof fn lemma_ops_disk(m: StoreModel, d: Disk, ops: Seq<Op>)
    requires
        disk_matches(m, d),
        ops_valid(m, ops),
    ensures
        disk_matches(apply_ops(m, ops), disk_after(m, d, ops)),
    decreases ops.len(),
{
    if ops.len() > 0 {
        lemma_ops_disk(m, d, ops.drop_last());
        let before = apply_ops(m, ops.drop_last());
        let disk = disk_after(m, d, ops.drop_last());
        let after = apply_ops(m, ops);
        match ops.last() {
            Op::Put { key, value, written } => {
                let e = EntryView { command: CommandView::Put { key, value }, end: (before.writer_pos + written) as u64 };
                lemma_append(before, disk, e);
                let d2 = append(disk, e);
                assert(disk_after(m, d, ops) == d2);
                assert(after == before.set(key, value, written));
                assert(replay_logs(d2.gens, d2.logs).index =~= after.index);
                assert(replay_logs(d2.gens, d2.logs).contents =~= after.contents);
                assert(after.index.dom() =~= after.contents.dom());
                assert(after.wf());
                assert(d2.gens.len() == d2.logs.len());
                assert(d2.gens.last() == after.cur_gen);
                assert(entry_start(d2.logs.last(), d2.logs.last().len() as int) == after.writer_pos);
            },
            Op::Remove { key, written } => {
                if before.index.contains_key(key) {
                    let e = EntryView { command: CommandView::Remove { key }, end: (before.writer_pos + written) as u64 };
                    lemma_append(before, disk, e);
                    let d2 = append(disk, e);
                    assert(disk_after(m, d, ops) == d2);
                    assert(after == before.remove(key).advance(written).count_stale(before.index[key].len));
                    assert(replay_logs(d2.gens, d2.logs).index =~= after.index);
                    assert(replay_logs(d2.gens, d2.logs).contents =~= after.contents);
                    assert(after.index.dom() =~= after.contents.dom());
                    assert(after.wf());
                    assert(d2.gens.len() == d2.logs.len());
                    assert(d2.gens.last() == after.cur_gen);
                    assert(entry_start(d2.logs.last(), d2.logs.last().len() as int) == after.writer_pos);
                } else {
                    assert(disk_after(m, d, ops) == disk);
                    assert(after == before);
                }
            },
            Op::Compact { order, copied } => {
                let gen = (before.cur_gen + 1) as u64;
                let m1 = before.begin_compaction().switch_writer(0).add_reader(gen);
                assert(m1.wf()) by {
                    assert forall|g: u64| #[trigger] m1.readers.contains(g) implies g <= m1.cur_gen by {
                        if before.readers.contains(g) {
                            assert(g <= before.cur_gen);
                        }
                    }
                }
                lemma_relocate_all(m1, gen, order, copied, order.len() as int);
                let cl = compact_log(before, order, copied);
                lemma_compact_log_replay(before, gen, order, copied, order.len() as int);
                assert(cl.take(order.len() as int) =~= cl);
                assert(order.take(order.len() as int) =~= order);
                let d2 = disk_after(m, d, ops);
                assert(d2.gens.drop_last() =~= seq![gen]);
                assert(d2.logs.drop_last() =~= seq![cl]);
                assert(seq![gen].drop_last() =~= Seq::<u64>::empty());
                assert(seq![cl].drop_last() =~= Seq::<Seq<EntryView>>::empty());
                let rep = replay_log(crate::model::empty_replay(), gen, cl);
                assert(d2.gens == seq![gen, (gen + 1) as u64]);
                assert(d2.logs == seq![cl, Seq::<EntryView>::empty()]);
                let one = replay_logs(seq![gen], seq![cl]);
                assert(replay_logs(Seq::<u64>::empty(), Seq::<Seq<EntryView>>::empty()) == crate::model::empty_replay());
                assert(one == rep);
                assert(replay_log(one, (gen + 1) as u64, Seq::<EntryView>::empty()) == one);
                assert(replay_logs(d2.gens, d2.logs) == rep);
                assert forall|k: Seq<char>| #[trigger] rep.index.contains_key(k) implies rep.index[k] == after.index[k] by {
                    let i = choose|i: int| 0 <= i < order.len() && order[i] == k;
                }
                assert(rep.index =~= after.index);
                assert forall|k: Seq<char>| #[trigger] rep.contents.contains_key(k) implies rep.contents[k] == after.contents[k] by {
                    let i = choose|i: int| 0 <= i < order.len() && order[i] == k;
                }
                assert(rep.contents =~= after.contents);
                assert forall|g: u64| #[trigger] after.readers.contains(g) implies g <= after.cur_gen by {}
            },
        }
    }
}

/// Reopening restores what was written: if the log files of a store replay
/// to its index and values, they still do after any sequence of `Put`s,
/// removals and compactions (each compaction copying the live commands
/// exactly), with the current log last and ending where the writer is.
pub proof fn law_reopen_restores(m: StoreModel, d: Disk, ops: Seq<Op>)
    requires
        disk_matches(m, d),
        ops_valid(m, ops),
    ensures
        ({
            let after = apply_ops(m, ops);
            let disk = disk_after(m, d, ops);
            &&& replay_logs(disk.gens, disk.logs).index == after.index
            &&& replay_logs(disk.gens, disk.logs).contents == after.contents
            &&& disk.gens.last() == after.cur_gen
        }),
{
    lemma_ops_disk(m, d, ops);
}

/// A store opened on the logs of `gens` and given a fresh current log of the
/// next generation agrees with its log files.
pub proof fn law_open_matches_disk(m: StoreModel, gens: Seq<u64>, logs: Seq<Seq<EntryView>>)
    requires
        gens.len() == logs.len(),
        m.wf(),
        m.index == replay_logs(gens, logs).index,
        m.contents == replay_logs(gens, logs).contents,
        m.writer_pos == 0,
    ensures
        disk_matches(m, Disk { gens: gens.push(m.cur_gen), logs: logs.push(Seq::empty()) }),
{
    assert(gens.push(m.cur_gen).drop_last() =~= gens);
    assert(logs.push(Seq::<EntryView>::empty()).drop_last() =~= logs);
}

/// Every key's live command lies in a generation that has a reader, and so
/// does the current generation.
pub open spec fn readers_cover(m: StoreModel) -> bool {
    &&& m.readers.contains(m.cur_gen)
    &&& forall|k: Seq<char>| #[trigger] m.index.contains_key(k) ==> m.readers.contains(m.index[k].gen)
}

proof fn lemma_replay_log_gens(r: crate::model::Replay, gen: u64, es: Seq<EntryView>, s: Set<u64>)
    requires
        forall|k: Seq<char>| #[trigger] r.index.contains_key(k) ==> s.contains(r.index[k].gen),
        s.contains(gen),
    ensures
        ({
            let rep = replay_log(r, gen, es);
            forall|k: Seq<char>| #[trigger] rep.index.contains_key(k) ==> s.contains(rep.index[k].gen)
        }),
    decreases es.len(),
{
    if es.len() > 0 {
        lemma_replay_log_gens(r, gen, es.drop_last(), s);
        let prev = replay_log(r, gen, es.drop_last());
        let rep = replay_log(r, gen, es);
        assert forall|k: Seq<char>| #[trigger] rep.index.contains_key(k) implies s.contains(rep.index[k].gen) by {
            match es.last().command {
                CommandView::Put { key, .. } => {
                    if k != key {
                        assert(prev.index.contains_key(k));
                    }
                },
                CommandView::Remove { key } => {
                    assert(prev.index.contains_key(k));
                },
            }
        }
    }
}

proof fn lemma_replay_logs_gens(gens: Seq<u64>, logs: Seq<Seq<EntryView>>, s: Set<u64>)
    requires
        forall|i: int| 0 <= i < gens.len() ==> s.contains(#[trigger] gens[i]),
    ensures
        ({
            let rep = replay_logs(gens, logs);
            forall|k: Seq<char>| #[trigger] rep.index.contains_key(k) ==> s.contains(rep.index[k].gen)
        }),
    decreases gens.len(),
{
    if gens.len() > 0 && logs.len() == gens.len() {
        lemma_replay_logs_gens(gens.drop_last(), logs.drop_last(), s);
        lemma_replay_log_gens(replay_logs(gens.drop_last(), logs.drop_last()), gens.last(), logs.last(), s);
    }
}

/// A store opened on the logs of `gens`, with readers for those generations
/// and for its fresh current one, has a reader for every live command.
pub proof fn law_open_readers_cover(m: StoreModel, gens: Seq<u64>, logs: Seq<Seq<EntryView>>)
    requires
        m.index == replay_logs(gens, logs).index,
        m.readers == gens.to_set().insert(m.cur_gen),
    ensures
        readers_cover(m),
{
    lemma_replay_logs_gens(gens, logs, m.readers);
}

/// `Put`s, removals and whole compactions keep a reader for every live command
/// and for the current generation.
pub proof fn law_readers_cover_index(m: StoreModel, ops: Seq<Op>)
    requires
        m.wf(),
        readers_cover(m),
        ops_valid(m, ops),
    ensures
        apply_ops(m, ops).wf(),
        readers_cover(apply_ops(m, ops)),
    decreases ops.len(),
{
    if ops.len() > 0 {
        law_readers_cover_index(m, ops.drop_last());
        let before = apply_ops(m, ops.drop_last());
        let after = apply_ops(m, ops);
        match ops.last() {
            Op::Put { key, value, written } => {
                assert(after.index.dom() =~= after.contents.dom());
            },
            Op::Remove { key, written } => {
                if before.index.contains_key(key) {
                    assert(after.index.dom() =~= after.contents.dom());
                } else {
                    assert(after == before);
                }
            },
            Op::Compact { order, copied } => {
                let gen = (before.cur_gen + 1) as u64;
                let m1 = before.begin_compaction().switch_writer(0).add_reader(gen);
                assert(m1.wf()) by {
                    assert forall|g: u64| #[trigger] m1.readers.contains(g) implies g <= m1.cur_gen by {
                        if before.readers.contains(g) {
                            assert(g <= before.cur_gen);
                        }
                    }
                }
                lemma_relocate_all(m1, gen, order, copied, order.len() as int);
                assert forall|k: Seq<char>| #[trigger] after.index.contains_key(k) implies after.readers.contains(after.index[k].gen) by {
                    let i = choose|i: int| 0 <= i < order.len() && order[i] == k;
                    assert(after.index[order[i]].gen == gen);
                }
                assert(after.readers.contains(after.cur_gen));
            },
        }
    }
}

/// The text pairs `c` of the log-structured store and the byte pairs `s` of
/// the sled engine hold the same map: a key is in one exactly where its
/// UTF-8 bytes are in the other, under the UTF-8 bytes of the same value.
pub open spec fn engines_agree(c: Map<Seq<char>, Seq<char>>, s: Map<Seq<u8>, Seq<u8>>) -> bool {
    forall|k: Seq<char>|
        (#[trigger] c.contains_key(k) <==> s.contains_key(encode_utf8(k))) && (c.contains_key(k)
            ==> s[encode_utf8(k)] == encode_utf8(c[k]))
}

/// What a lookup of `key` among text pairs finds.
pub open spec fn text_lookup(c: Map<Seq<char>, Seq<char>>, key: Seq<char>) -> Option<Seq<char>> {
    if c.contains_key(key) {
        Some(c[key])
    } else {
        None
    }
}

proof fn lemma_encode_injective(a: Seq<char>, b: Seq<char>)
    requires
        encode_utf8(a) == encode_utf8(b),
    ensures
        a == b,
{
    encode_utf8_decode_utf8(a);
    encode_utf8_decode_utf8(b);
}

/// The two engines answer alike: started empty, and given the same sets and
/// removals (the log-structured store's contents change as its `set` and
/// `remove` state, the sled tree's as `SledEngine::set` and `remove` state),
/// they hold the same map; so a lookup in the sled engine finds what the
/// store holds, and a removal fails with `KeyNotFoundErr` in one exactly
/// where it fails in the other.
pub proof fn law_engines_agree(
    c: Map<Seq<char>, Seq<char>>,
    s: Map<Seq<u8>, Seq<u8>>,
    key: Seq<char>,
    value: Seq<char>,
)
    requires
        engines_agree(c, s),
    ensures
        engines_agree(Map::empty(), Map::empty()),
        stored_text(s, key) == Some(text_lookup(c, key)),
        c.contains_key(key) <==> s.contains_key(encode_utf8(key)),
        engines_agree(c.insert(key, value), s.insert(encode_utf8(key), encode_utf8(value))),
        engines_agree(c.remove(key), s.remove(encode_utf8(key))),
{
    assert(c.contains_key(key) <==> s.contains_key(encode_utf8(key)));
    if c.contains_key(key) {
        encode_utf8_valid_utf8(c[key]);
        encode_utf8_decode_utf8(c[key]);
    }
    assert forall|k: Seq<char>| k != key implies encode_utf8(k) != encode_utf8(key) by {
        if encode_utf8(k) == encode_utf8(key) {
            lemma_encode_injective(k, key);
        }
    }
    let c2 = c.insert(key, value);
    let s2 = s.insert(encode_utf8(key), encode_utf8(value));
    assert forall|k: Seq<char>|
        (#[trigger] c2.contains_key(k) <==> s2.contains_key(encode_utf8(k))) && (c2.contains_key(k)
            ==> s2[encode_utf8(k)] == encode_utf8(c2[k])) by {
        assert(c.contains_key(k) <==> s.contains_key(encode_utf8(k)));
    }
    let c3 = c.remove(key);
    let s3 = s.remove(encode_utf8(key));
    assert forall|k: Seq<char>|
        (#[trigger] c3.contains_key(k) <==> s3.contains_key(encode_utf8(k))) && (c3.contains_key(k)
            ==> s3[encode_utf8(k)] == encode_utf8(c3[k])) by {
        assert(c.contains_key(k) <==> s.contains_key(encode_utf8(k)));
    }
}

/// The log files of two generations have different names.
pub proof fn law_log_names_distinct(gen1: u64, gen2: u64)
    requires
        gen1 != gen2,
    ensures
        log_file_name(gen1) != log_file_name(gen2),
{
    law_log_name_round_trip(gen1);
    law_log_name_round_trip(gen2);
}

/// What the sled engine holds after setting `key` to `value` reads back as
/// `value`; after removing `key` it reads back as absent.
pub proof fn law_sled_read_after_write(c: Map<Seq<u8>, Seq<u8>>, key: Seq<char>, value: Seq<char>)
    ensures
        stored_text(c.insert(encode_utf8(key), encode_utf8(value)), key) == Some(Some(value)),
        stored_text(c.remove(encode_utf8(key)), key) == Some(None::<Seq<char>>),
{
    encode_utf8_valid_utf8(value);
    encode_utf8_decode_utf8(value);
}

proof fn lemma_decimal_digits(n: nat)
    ensures
        decimal_chars(n).len() > 0,
        forall|i: int| 0 <= i < decimal_chars(n).len() ==> is_digit(#[trigger] decimal_chars(n)[i]),
        digits_value(decimal_chars(n)) == n,
    decreases n,
{
    if n >= 10 {
        lemma_decimal_digits(n / 10);
        let d = decimal_chars(n / 10);
        assert(decimal_chars(n).drop_last() =~= d);
        assert(decimal_chars(n).last() == (('0' as int) + n % 10) as char);
        let c = (('0' as int) + n % 10) as char;
        assert(c as int == ('0' as int) + n % 10);
        assert((n / 10) * 10 + n % 10 == n) by (nonlinear_arith);
        assert(digits_value(decimal_chars(n)) == digits_value(d) * 10 + (c as int - '0' as int));
    } else {
        assert(decimal_chars(n).drop_last() =~= Seq::<char>::empty());
        let c = (('0' as int) + n) as char;
        assert(c as int == ('0' as int) + n);
        assert(decimal_chars(n).last() == c);
        assert(digits_value(Seq::<char>::empty()) == 0);
        assert(digits_value(decimal_chars(n)) == digits_value(decimal_chars(n).drop_last()) * 10 + (c as int - '0' as int));
    }
}

/// The log file of a generation is found again under that generation: the
/// name `log_path` gives it has the extension `log`, and what is left of it
/// parses back to the generation.
pub proof fn law_log_name_round_trip(gen: u64)
    ensures
        gen_of_name(log_file_name(gen)) == Some(gen),
{
    let d = decimal_chars(gen as nat);
    lemma_decimal_digits(gen as nat);
    let name = log_file_name(gen);
    assert(name.subrange(name.len() - 4, name.len() as int) =~= log_suffix());
    assert(has_log_extension(name));
    assert(name.subrange(0, name.len() - 4) =~= d);
    if ends_with_log(d) {
        assert(d[d.len() - 4] == d.subrange(d.len() - 4, d.len() as int)[0]);
        assert(is_digit(d[d.len() - 4]));
    }
    assert(trim_log_suffixes(d) == d);
    assert(trim_log_suffixes(name) == d);
    assert(d[0] != '+') by {
        assert(is_digit(d[0]));
    }
    assert(parsed_u64(d) == Some(gen));
}

} // verus!
