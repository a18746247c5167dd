use std::collections::HashSet;

use vstd::prelude::*;
use vstd::std_specs::hash::spec_hash_keys_iter;
use vstd::std_specs::iter::IteratorSpec;

use crate::command::{CommandPos, CommandView, EntryView, KvsCommand, LogEntry};
use crate::error::DbError;
use crate::index::KeyIndex;
use crate::model::{
    apply_entry, empty_replay, entry_start, next_gen_of, offsets_ascending, replay_log,
    replay_logs, superseded_len, Replay, StoreModel, COMPACT_WATERFLOW,
};

verus! {

broadcast use vstd::std_specs::hash::group_hash_axioms;

/// The mathematical content of a log read back from a file.
pub open spec fn log_view(es: Seq<LogEntry>) -> Seq<EntryView> {
    es.map_values(|e: LogEntry| e@)
}

/// The mathematical content of the logs of several generations.
pub open spec fn logs_view(logs: Seq<Vec<LogEntry>>) -> Seq<Seq<EntryView>> {
    logs.map_values(|l: Vec<LogEntry>| log_view(l@))
}

/// Replaying from a count of `s` stale bytes counts `s` more than replaying
/// from none, and builds the same index and values.
pub proof fn lemma_replay_shift(r: Replay, gen: u64, es: Seq<EntryView>)
    ensures
        ({
            let r0 = Replay { stale: 0, ..r };
            &&& replay_log(r, gen, es).index == replay_log(r0, gen, es).index
            &&& replay_log(r, gen, es).contents == replay_log(r0, gen, es).contents
            &&& replay_log(r, gen, es).stale == r.stale + replay_log(r0, gen, es).stale
        }),
    decreases es.len(),
{
    if es.len() > 0 {
        lemma_replay_shift(r, gen, es.drop_last());
    }
}

/// Replaying more entries never lowers the stale count.
pub proof fn lemma_replay_grows(r: Replay, gen: u64, es: Seq<EntryView>, i: int)
    requires
        offsets_ascending(es),
        0 <= i <= es.len(),
    ensures
        replay_log(r, gen, es).stale >= replay_log(r, gen, es.take(i)).stale,
        replay_log(r, gen, es).stale >= r.stale,
    decreases es.len(),
{
    if es.len() == 0 {
        assert(es.take(i) =~= es);
    } else if i == es.len() {
        assert(es.take(i) =~= es);
        lemma_replay_grows(r, gen, es.drop_last(), 0);
        let last = es.len() - 1;
        assert(entry_start(es, last) <= es[last].end);
    } else {
        let d = es.drop_last();
        assert(offsets_ascending(d)) by {
            assert forall|j: int| 0 <= j < d.len() implies entry_start(d, j) <= #[trigger] d[j].end by {
                assert(entry_start(es, j) <= es[j].end);
            }
        }
        lemma_replay_grows(r, gen, d, i);
        assert(d.take(i) =~= es.take(i));
        let last = es.len() - 1;
        assert(entry_start(es, last) <= es[last].end);
    }
}

/// Replaying the logs of more generations never lowers the stale count.
pub proof fn lemma_replay_logs_grows(gens: Seq<u64>, logs: Seq<Seq<EntryView>>, j: int)
    requires
        gens.len() == logs.len(),
        forall|i: int| 0 <= i < logs.len() ==> offsets_ascending(#[trigger] logs[i]),
        0 <= j <= gens.len(),
    ensures
        replay_logs(gens, logs).stale >= replay_logs(gens.take(j), logs.take(j)).stale,
        replay_logs(gens, logs).stale >= 0,
    decreases gens.len(),
{
    if gens.len() == 0 {
        assert(gens.take(j) =~= gens);
        assert(logs.take(j) =~= logs);
    } else {
        let g = gens.drop_last();
        let l = logs.drop_last();
        if j == gens.len() {
            assert(gens.take(j) =~= gens);
            assert(logs.take(j) =~= logs);
            lemma_replay_logs_grows(g, l, 0);
        } else {
            lemma_replay_logs_grows(g, l, j);
            assert(g.take(j) =~= gens.take(j));
            assert(l.take(j) =~= logs.take(j));
        }
        assert(offsets_ascending(logs[logs.len() - 1]));
        lemma_replay_grows(replay_logs(g, l), gens.last(), logs.last(), 0);
    }
}

/// The progress of a compaction: the generation that receives the compacted
/// log, the offset at which the next live command is copied to it, and how many
/// live commands (in key order) have been copied.
pub struct Compaction {
    pub gen: u64,
    pub next_pos: u64,
    pub done: usize,
}

/// Replaying the logs of one more generation replays its log on top.
proof fn lemma_replay_logs_step(gens: Seq<u64>, lv: Seq<Seq<EntryView>>, j: int)
    requires
        gens.len() == lv.len(),
        0 <= j < gens.len(),
    ensures
        replay_logs(gens.take(j + 1), lv.take(j + 1)) == replay_log(
            replay_logs(gens.take(j), lv.take(j)),
            gens[j],
            lv[j],
        ),
        gens.take(j).len() == lv.take(j).len(),
{
    assert(gens.take(j + 1).drop_last() =~= gens.take(j));
    assert(lv.take(j + 1).drop_last() =~= lv.take(j));
}

/// The bookkeeping of a log-structured key/value store.
///
/// Commands are appended to the log of the current generation; the index
/// remembers, for every key, where its live `Put` command lies. The store
/// does not touch files: the caller writes and reads the logs and reports
/// to the store what it wrote.
pub struct KvStore {
    cur_gen: u64,
    writer_pos: u64,
    need_compact: u64,
    readers: HashSet<u64>,
    index: KeyIndex,
    contents: Ghost<Map<Seq<char>, Seq<char>>>,
}

impl View for KvStore {
    type V = StoreModel;

    closed spec fn view(&self) -> StoreModel {
        StoreModel {
            cur_gen: self.cur_gen,
            writer_pos: self.writer_pos,
            need_compact: self.need_compact,
            readers: self.readers@,
            index: self.index@,
            contents: self.contents@,
        }
    }
}

impl KvStore {
    pub closed spec fn wf(&self) -> bool {
        &&& self.index.wf()
        &&& self.index@.dom() == self.contents@.dom()
        &&& forall|g: u64| #[trigger] self.readers@.contains(g) ==> g <= self.cur_gen
    }

    /// The keys in the order in which the store walks them (that of `String`).
    pub closed spec fn key_order(&self) -> Seq<Seq<char>> {
        self.index.keys()
    }

    /// What every well-formed store promises about its model and key order.
    pub proof fn lemma_wf(&self)
        requires
            self.wf(),
        ensures
            self@.wf(),
            self.key_order().no_duplicates(),
            self.key_order().to_set() == self@.index.dom(),
    {
        self.index.lemma_wf();
    }

    /// Replays one log into the index. Returns the number of bytes this log
    /// makes stale, or `None` where counting them overflows.
    fn load_logfile(&mut self, gen: u64, entries: &Vec<LogEntry>) -> (r: Option<u64>)
        requires
            old(self).wf(),
            offsets_ascending(log_view(entries@)),
        ensures
            final(self).wf(),
            final(self).cur_gen == old(self).cur_gen,
            final(self).writer_pos == old(self).writer_pos,
            final(self).need_compact == old(self).need_compact,
            final(self).readers == old(self).readers,
            ({
                let r0 = Replay { index: old(self)@.index, contents: old(self)@.contents, stale: 0 };
                let rep = replay_log(r0, gen, log_view(entries@));
                match r {
                    Some(n) => {
                        &&& n == rep.stale
                        &&& final(self)@.index == rep.index
                        &&& final(self)@.contents == rep.contents
                    },
                    None => rep.stale > u64::MAX,
                }
            }),
    {
        let ghost es = log_view(entries@);
        let ghost r0 = Replay { index: self.index@, contents: self.contents@, stale: 0 };
        let mut need_compact: u64 = 0;
        let mut pos: u64 = 0;
        let mut i: usize = 0;
        while i < entries.len()
            invariant
                self.wf(),
                self.cur_gen == old(self).cur_gen,
                self.writer_pos == old(self).writer_pos,
                self.need_compact == old(self).need_compact,
                self.readers == old(self).readers,
                es == log_view(entries@),
                r0 == (Replay { index: old(self)@.index, contents: old(self)@.contents, stale: 0 }),
                offsets_ascending(es),
                i <= entries.len(),
                pos == entry_start(es, i as int),
                ({
                    let rep = replay_log(r0, gen, es.take(i as int));
                    &&& need_compact == rep.stale
                    &&& self.index@ == rep.index
                    &&& self.contents@ == rep.contents
                }),
            decreases entries.len() - i,
        {
            let ghost before = replay_log(r0, gen, es.take(i as int));
            let new_pos = entries[i].end;
            proof {
                assert(es.take(i + 1).drop_last() =~= es.take(i as int));
                assert(entry_start(es.take(i + 1), i as int) == entry_start(es, i as int));
                assert(es[i as int] == entries@[i as int]@);
                assert(entry_start(es, i as int) <= es[i as int].end);
            }
            let ghost after = replay_log(r0, gen, es.take(i + 1));
            assert(after == apply_entry(before, gen, pos, es[i as int]));
            match &entries[i].command {
                KvsCommand::Put { key, value } => {
                    let cp: CommandPos = (gen, pos..new_pos).into();
                    let prev = self.index.insert(key.clone(), cp);
                    self.contents = Ghost(self.contents@.insert(key@, value@));
                    if let Some(old_cmd) = prev {
                        match need_compact.checked_add(old_cmd.len) {
                            Some(n) => {
                                need_compact = n;
                            },
                            None => {
                                proof {
                                    lemma_replay_grows(r0, gen, es, (i + 1) as int);
                                }
                                return None;
                            },
                        }
                    }
                },
                KvsCommand::Remove { key } => {
                    assert(es[i as int].command == (CommandView::Remove { key: key@ }));
                    assert(after.stale == before.stale + superseded_len(before.index, key@) + (
                    new_pos - pos));
                    let prev = self.index.remove(key.as_str());
                    self.contents = Ghost(self.contents@.remove(key@));
                    if let Some(old_cmd) = prev {
                        match need_compact.checked_add(old_cmd.len) {
                            Some(n) => {
                                need_compact = n;
                            },
                            None => {
                                proof {
                                    lemma_replay_grows(r0, gen, es, (i + 1) as int);
                                }
                                return None;
                            },
                        }
                    }
                    match need_compact.checked_add(new_pos - pos) {
                        Some(n) => {
                            need_compact = n;
                        },
                        None => {
                            proof {
                                lemma_replay_grows(r0, gen, es, i + 1);
                            }
                            return None;
                        },
                    }
                },
            }
            pos = new_pos;
            i = i + 1;
        }
        assert(es.take(i as int) =~= es);
        Some(need_compact)
    }

    /// Opens a store on the logs of generations `gens`, where `logs[i]` holds
    /// the entries read back from the log of generation `gens[i]`: the logs are
    /// replayed in the order given. New commands go to the generation after the
    /// last one given (1 if none is), whose writer the caller opens next (see
    /// `switch_writer`).
    ///
    /// Returns `None` exactly where counting stale bytes or numbering the next
    /// generation overflows a `u64`.
    #[verifier::rlimit(40)]
    pub fn open(gens: &Vec<u64>, logs: &Vec<Vec<LogEntry>>) -> (r: Option<KvStore>)
        requires
            gens.len() == logs.len(),
            crate::files::ascending(gens@),
            forall|i: int| 0 <= i < logs.len() ==> offsets_ascending(log_view(#[trigger] logs@[i]@)),
        ensures
            ({
                let rep = replay_logs(gens@, logs_view(logs@));
                &&& r is Some <==> (rep.stale <= u64::MAX && next_gen_of(gens@) <= u64::MAX)
                &&& r matches Some(s) ==> {
                    &&& s.wf()
                    &&& s@ == (StoreModel {
                        cur_gen: next_gen_of(gens@) as u64,
                        writer_pos: 0,
                        need_compact: rep.stale as u64,
                        readers: gens@.to_set(),
                        index: rep.index,
                        contents: rep.contents,
                    })
                }
            }),
    {
        let ghost lv = logs_view(logs@);
        proof {
            assert forall|i: int| 0 <= i < lv.len() implies offsets_ascending(#[trigger] lv[i]) by {
                assert(lv[i] == log_view(logs@[i]@));
            }
        }
        let cur_gen = if gens.len() == 0 {
            1
        } else {
            match gens[gens.len() - 1].checked_add(1) {
                Some(g) => g,
                None => {
                    return None;
                },
            }
        };
        proof {
            assert forall|i: int| 0 <= i < gens.len() implies #[trigger] gens@[i] < cur_gen by {
                if i < gens.len() - 1 {
                    assert(gens@[i] <= gens@[gens.len() - 1]);
                }
            }
        }
        let mut store = KvStore {
            cur_gen,
            writer_pos: 0,
            need_compact: 0,
            readers: HashSet::new(),
            index: KeyIndex::new(),
            contents: Ghost(Map::empty()),
        };
        proof {
            assert(store.index@ =~= empty_replay().index);
            assert(gens@.take(0) =~= Seq::<u64>::empty());
            assert(lv.take(0) =~= Seq::<Seq<EntryView>>::empty());
            assert(store.readers@ =~= gens@.take(0).to_set());
        }
        let mut need_compact: u64 = 0;
        let mut j: usize = 0;
        while j < gens.len()
            invariant
                gens.len() == logs.len(),
                lv == logs_view(logs@),
                lv.len() == gens.len(),
                forall|i: int| 0 <= i < lv.len() ==> offsets_ascending(#[trigger] lv[i]),
                forall|i: int| 0 <= i < logs.len() ==> offsets_ascending(log_view(#[trigger] logs@[i]@)),
                j <= gens.len(),
                store.wf(),
                store.cur_gen == cur_gen,
                cur_gen == next_gen_of(gens@),
                forall|i: int| 0 <= i < gens.len() ==> #[trigger] gens@[i] < cur_gen,
                store.writer_pos == 0,
                store.need_compact == 0,
                store.readers@ == gens@.take(j as int).to_set(),
                ({
                    let rep = replay_logs(gens@.take(j as int), lv.take(j as int));
                    &&& need_compact == rep.stale
                    &&& store.index@ == rep.index
                    &&& store.contents@ == rep.contents
                }),
            decreases gens.len() - j,
        {
            let ghost rep = replay_logs(gens@.take(j as int), lv.take(j as int));
            let ghost r0 = Replay { stale: 0, ..rep };
            proof {
                lemma_replay_logs_step(gens@, lv, j as int);
                assert(lv[j as int] == log_view(logs@[j as int]@));
                lemma_replay_shift(rep, gens@[j as int], lv[j as int]);
                lemma_replay_logs_grows(gens@.take(j as int), lv.take(j as int), 0);
            }
            match store.load_logfile(gens[j], &logs[j]) {
                Some(n) => {
                    match need_compact.checked_add(n) {
                        Some(total) => {
                            need_compact = total;
                        },
                        None => {
                            proof {
                                lemma_replay_logs_grows(gens@, lv, j + 1);
                                assert(gens@ =~= gens@.take(gens.len() as int));
                            }
                            return None;
                        },
                    }
                },
                None => {
                    proof {
                        lemma_replay_logs_grows(gens@, lv, j + 1);
                    }
                    return None;
                },
            }
            store.add_reader(gens[j]);
            proof {
                assert(gens@.take(j + 1) =~= gens@.take(j as int).push(gens@[j as int]));
                assert(gens@.take(j + 1).to_set() =~= gens@.take(j as int).to_set().insert(gens@[j as int]));
            }
            j = j + 1;
        }
        proof {
            assert(gens@.take(j as int) =~= gens@);
            assert(lv.take(j as int) =~= lv);
        }
        store.need_compact = need_compact;
        Some(store)
    }

    /// Registers a reader for the log of generation `gen`.
    pub fn add_reader(&mut self, gen: u64)
        requires
            old(self).wf(),
            gen <= old(self)@.cur_gen,
        ensures
            final(self).wf(),
            final(self)@ == old(self)@.add_reader(gen),
            final(self).key_order() == old(self).key_order(),
    {
        self.readers.insert(gen);
    }

    /// The generation that new commands are written to.
    pub fn current_gen(&self) -> (g: u64)
        ensures
            g == self@.cur_gen,
    {
        self.cur_gen
    }

    /// The offset at which the next command is written.
    pub fn writer_pos(&self) -> (p: u64)
        ensures
            p == self@.writer_pos,
    {
        self.writer_pos
    }

    /// The count of stale log bytes.
    pub fn stale_bytes(&self) -> (n: u64)
        ensures
            n == self@.need_compact,
    {
        self.need_compact
    }

    /// Records that a `Put` command setting `key` to `value`, `written` bytes
    /// long, was written and flushed at the writer's position. The bytes of
    /// the command it supersedes become stale. Returns whether a compaction
    /// is due.
    pub fn set(&mut self, key: String, value: &str, written: u64) -> (compact: bool)
        requires
            old(self).wf(),
            old(self)@.set_fits(key@, written),
        ensures
            final(self).wf(),
            final(self)@ == old(self)@.set(key@, value@, written),
            compact == final(self)@.compaction_due(),
    {
        let pos = self.writer_pos;
        self.writer_pos = pos + written;
        let cp: CommandPos = (self.cur_gen, pos..self.writer_pos).into();
        let ghost k = key@;
        let prev = self.index.insert(key, cp);
        self.contents = Ghost(self.contents@.insert(k, value@));
        if let Some(old_cmd) = prev {
            self.need_compact = self.need_compact + old_cmd.len;
        }
        self.need_compact > COMPACT_WATERFLOW
    }

    /// Where the live command of `key` lies, if the store holds `key`.
    pub fn get(&self, key: &str) -> (r: Option<CommandPos>)
        requires
            self.wf(),
        ensures
            r == (if self@.index.contains_key(key@) {
                Some(self@.index[key@])
            } else {
                None
            }),
            r is Some <==> self@.contents.contains_key(key@),
    {
        self.index.get(key)
    }

    /// Drops `key` from the index, returning where its live command lay; fails
    /// with `KeyNotFoundErr`, changing nothing, where the store does not hold
    /// `key`.
    pub fn remove(&mut self, key: &str) -> (r: Result<CommandPos, DbError>)
        requires
            old(self).wf(),
        ensures
            final(self).wf(),
            match r {
                Ok(p) => {
                    &&& old(self)@.index.contains_key(key@)
                    &&& p == old(self)@.index[key@]
                    &&& final(self)@ == old(self)@.remove(key@)
                },
                Err(e) => {
                    &&& !old(self)@.index.contains_key(key@)
                    &&& e is KeyNotFoundErr
                    &&& final(self)@ == old(self)@
                },
            },
    {
        match self.index.remove(key) {
            Some(p) => {
                self.contents = Ghost(self.contents@.remove(key@));
                Ok(p)
            },
            None => {
                proof {
                    assert(self.index@ =~= old(self).index@);
                }
                Err(DbError::KeyNotFoundErr)
            },
        }
    }

    /// Records that `written` bytes were appended to the current log.
    pub fn advance_writer(&mut self, written: u64)
        requires
            old(self).wf(),
            old(self)@.writer_pos + written <= u64::MAX,
        ensures
            final(self).wf(),
            final(self)@ == old(self)@.advance(written),
            final(self).key_order() == old(self).key_order(),
    {
        self.writer_pos = self.writer_pos + written;
    }

    /// Counts `len` more bytes as stale.
    pub fn count_stale(&mut self, len: u64)
        requires
            old(self).wf(),
            old(self)@.need_compact + len <= u64::MAX,
        ensures
            final(self).wf(),
            final(self)@ == old(self)@.count_stale(len),
            final(self).key_order() == old(self).key_order(),
    {
        self.need_compact = self.need_compact + len;
    }

    /// Starts a compaction: the next generation receives the compacted log,
    /// the one after it becomes the current generation.
    pub fn begin_compaction(&mut self) -> (c: Compaction)
        requires
            old(self).wf(),
            old(self)@.cur_gen + 2 <= u64::MAX,
        ensures
            final(self).wf(),
            final(self)@ == old(self)@.begin_compaction(),
            final(self).key_order() == old(self).key_order(),
            c == (Compaction { gen: (old(self)@.cur_gen + 1) as u64, next_pos: 0, done: 0 }),
    {
        let compact_gen = self.cur_gen + 1;
        self.cur_gen = self.cur_gen + 2;
        Compaction { gen: compact_gen, next_pos: 0, done: 0 }
    }

    /// Records that a fresh log of the current generation is now the writer,
    /// positioned at `pos`, with a reader of its own.
    pub fn switch_writer(&mut self, pos: u64)
        requires
            old(self).wf(),
        ensures
            final(self).wf(),
            final(self)@ == old(self)@.switch_writer(pos),
            final(self).key_order() == old(self).key_order(),
    {
        let g = self.cur_gen;
        self.add_reader(g);
        self.writer_pos = pos;
    }

    /// The positions of the live commands, in the order in which compaction
    /// copies them (the key order).
    pub fn compaction_plan(&self) -> (r: Vec<CommandPos>)
        requires
            self.wf(),
        ensures
            r@.len() == self.key_order().len(),
            forall|i: int| 0 <= i < r@.len() ==> r@[i] == self@.index[#[trigger] self.key_order()[i]],
    {
        proof {
            self.index.lemma_wf();
        }
        self.index.all_positions()
    }

    /// Records that the next live command in key order was copied, `copied`
    /// bytes, to the compacted log at the compaction's next offset.
    pub fn relocate_next(&mut self, c: &mut Compaction, copied: u64)
        requires
            old(self).wf(),
            old(c).done < old(self).key_order().len(),
            old(c).next_pos + copied <= u64::MAX,
        ensures
            final(self).wf(),
            final(self).key_order() == old(self).key_order(),
            final(self)@ == old(self)@.relocate(
                old(self).key_order()[old(c).done as int],
                CommandPos::of_range(old(c).gen, old(c).next_pos, (old(c).next_pos + copied) as u64),
            ),
            *final(c) == (Compaction {
                gen: old(c).gen,
                next_pos: (old(c).next_pos + copied) as u64,
                done: (old(c).done + 1) as usize,
            }),
    {
        proof {
            self.index.lemma_wf();
        }
        let n = self.index.len();
        let new_pos = c.next_pos;
        let cp: CommandPos = (c.gen, new_pos..new_pos + copied).into();
        self.index.set_pos_at(c.done, cp);
        proof {
            assert(old(self).index.keys().contains(old(self).index.keys()[c.done as int]));
            assert(self.index@.dom() =~= old(self).index@.dom());
        }
        c.next_pos = new_pos + copied;
        c.done = c.done + 1;
    }

    /// The generations older than `gen` that still have a reader.
    pub fn stale_gens(&self, gen: u64) -> (r: Vec<u64>)
        requires
            self.wf(),
        ensures
            r@.to_set() == self@.stale_gens(gen),
            r@.no_duplicates(),
    {
        let mut r: Vec<u64> = Vec::new();
        let ghost keys = IteratorSpec::remaining(&spec_hash_keys_iter(&self.readers)).unref();
        proof {
            assert(keys.to_set() == self.readers@);
        }
        for g in it: self.readers.iter()
            invariant
                keys == it.seq().unref(),
                keys.no_duplicates(),
                keys.to_set() == self.readers@,
                r@.no_duplicates(),
                forall|x: u64|
                    r@.contains(x) <==> (x < gen && exists|k: int|
                        0 <= k < it.index() && #[trigger] keys[k] == x),
        {
            let ghost i = it.index();
            let ghost old_r = r@;
            let v = *g;
            assert(v == keys[i]);
            if v < gen {
                proof {
                    if old_r.contains(v) {
                        let k = choose|k: int| 0 <= k < i && #[trigger] keys[k] == v;
                        assert(keys[k] == keys[i]);
                    }
                }
                r.push(v);
                proof {
                    assert forall|a: int, b: int| 0 <= a < b < r@.len() implies r@[a] != r@[b] by {
                        if b == old_r.len() {
                            assert(old_r.contains(r@[a]));
                        }
                    }
                }
            }
            proof {
                assert(forall|x: u64| r@.contains(x) <==> (old_r.contains(x) || (x == v && v < gen))) by {
                    assert forall|x: u64| r@.contains(x) <==> (old_r.contains(x) || (x == v && v < gen)) by {
                        if r@.contains(x) {
                            let k = choose|k: int| 0 <= k < r@.len() && r@[k] == x;
                            if k < old_r.len() {
                                assert(old_r[k] == x);
                            }
                        }
                        if old_r.contains(x) {
                            let k = choose|k: int| 0 <= k < old_r.len() && old_r[k] == x;
                            assert(r@[k] == x);
                        }
                        if x == v && v < gen {
                            assert(r@[old_r.len() as int] == x);
                        }
                    }
                }
                assert forall|x: u64|
                    r@.contains(x) <==> (x < gen && exists|k: int|
                        0 <= k < i + 1 && #[trigger] keys[k] == x) by {
                    if x < gen && exists|k: int| 0 <= k < i + 1 && #[trigger] keys[k] == x {
                        let k = choose|k: int| 0 <= k < i + 1 && #[trigger] keys[k] == x;
                        if k < i {
                            assert(old_r.contains(x));
                        }
                    }
                    if old_r.contains(x) {
                        let k = choose|k: int| 0 <= k < i && #[trigger] keys[k] == x;
                        assert(0 <= k < i + 1 && keys[k] == x);
                    }
                }
            }
        }
        proof {
            assert forall|x: u64| r@.to_set().contains(x) <==> self@.stale_gens(gen).contains(x) by {
                if self.readers@.contains(x) && x < gen {
                    assert(keys.to_set().contains(x));
                    let k = choose|k: int| 0 <= k < keys.len() && keys[k] == x;
                    assert(exists|k: int| 0 <= k < keys.len() && #[trigger] keys[k] == x);
                }
                if r@.contains(x) {
                    let k = choose|k: int| 0 <= k < keys.len() && #[trigger] keys[k] == x;
                    assert(keys.to_set().contains(x));
                }
            }
            assert(r@.to_set() =~= self@.stale_gens(gen));
        }
        r
    }

    /// Drops the reader of generation `gen`.
    pub fn drop_reader(&mut self, gen: u64)
        requires
            old(self).wf(),
            forall|k: Seq<char>| #[trigger] old(self)@.index.contains_key(k) ==> old(self)@.index[k].gen != gen,
        ensures
            final(self).wf(),
            final(self)@ == old(self)@.drop_reader(gen),
            final(self).key_order() == old(self).key_order(),
    {
        self.readers.remove(&gen);
    }

    /// Ends a compaction: no log bytes are stale any more.
    pub fn finish_compaction(&mut self)
        requires
            old(self).wf(),
        ensures
            final(self).wf(),
            final(self)@ == old(self)@.finish_compaction(),
            final(self).key_order() == old(self).key_order(),
    {
        self.need_compact = 0;
    }
}

} // verus!
