use vstd::prelude::*;

use crate::command::{CommandPos, CommandView, EntryView};

verus! {

/// The store's stale-byte counter above which a compaction is due.
pub const COMPACT_WATERFLOW: u64 = 1024 * 1024;

/// The mathematical state of a store.
pub struct StoreModel {
    /// The generation that new commands are written to.
    pub cur_gen: u64,
    /// The offset at which the next command is written.
    pub writer_pos: u64,
    /// The count of stale log bytes that triggers compaction.
    pub need_compact: u64,
    /// The generations that have an open reader.
    pub readers: Set<u64>,
    /// Where the live command of each key lies.
    pub index: Map<Seq<char>, CommandPos>,
    /// The value of each key.
    pub contents: Map<Seq<char>, Seq<char>>,
}

/// The `len` of the position that `key` had, or 0 if it had none.
pub open spec fn superseded_len(index: Map<Seq<char>, CommandPos>, key: Seq<char>) -> int {
    if index.contains_key(key) {
        index[key].len as int
    } else {
        0
    }
}

impl StoreModel {
    pub open spec fn wf(self) -> bool {
        &&& self.index.dom() == self.contents.dom()
        &&& self.index.dom().finite()
        &&& forall|g: u64| #[trigger] self.readers.contains(g) ==> g <= self.cur_gen
    }

    /// Whether `set` of `key` after writing `written` bytes fits the counters.
    pub open spec fn set_fits(self, key: Seq<char>, written: u64) -> bool {
        &&& self.writer_pos + written <= u64::MAX
        &&& self.need_compact + superseded_len(self.index, key) <= u64::MAX
    }

    /// The state after a `Put` command for `key` of `written` bytes was
    /// written at the writer's position.
    pub open spec fn set(self, key: Seq<char>, value: Seq<char>, written: u64) -> StoreModel {
        let end = (self.writer_pos + written) as u64;
        StoreModel {
            writer_pos: end,
            need_compact: (self.need_compact + superseded_len(self.index, key)) as u64,
            index: self.index.insert(key, CommandPos::of_range(self.cur_gen, self.writer_pos, end)),
            contents: self.contents.insert(key, value),
            ..self
        }
    }

    pub open spec fn compaction_due(self) -> bool {
        self.need_compact > COMPACT_WATERFLOW
    }

    /// The state after `written` bytes were appended to the current log.
    pub open spec fn advance(self, written: u64) -> StoreModel {
        StoreModel { writer_pos: (self.writer_pos + written) as u64, ..self }
    }

    /// The state after `key` was dropped from the index.
    pub open spec fn remove(self, key: Seq<char>) -> StoreModel {
        StoreModel { index: self.index.remove(key), contents: self.contents.remove(key), ..self }
    }

    /// The state after `len` more bytes were counted as stale.
    pub open spec fn count_stale(self, len: u64) -> StoreModel {
        StoreModel { need_compact: (self.need_compact + len) as u64, ..self }
    }

    /// The state once a compaction has claimed the next two generations.
    pub open spec fn begin_compaction(self) -> StoreModel {
        StoreModel { cur_gen: (self.cur_gen + 2) as u64, ..self }
    }

    /// The state once a fresh log of the current generation is the writer,
    /// positioned at `pos`.
    pub open spec fn switch_writer(self, pos: u64) -> StoreModel {
        StoreModel { writer_pos: pos, readers: self.readers.insert(self.cur_gen), ..self }
    }

    pub open spec fn add_reader(self, gen: u64) -> StoreModel {
        StoreModel { readers: self.readers.insert(gen), ..self }
    }

    pub open spec fn drop_reader(self, gen: u64) -> StoreModel {
        StoreModel { readers: self.readers.remove(gen), ..self }
    }

    /// The state once the live command of `key` has been copied to `pos`.
    pub open spec fn relocate(self, key: Seq<char>, pos: CommandPos) -> StoreModel {
        StoreModel { index: self.index.insert(key, pos), ..self }
    }

    pub open spec fn finish_compaction(self) -> StoreModel {
        StoreModel { need_compact: 0, ..self }
    }

    /// The generations older than `gen` that have a reader.
    pub open spec fn stale_gens(self, gen: u64) -> Set<u64> {
        self.readers.filter(|g: u64| g < gen)
    }
}

/// What replaying logs builds: the index, the values, and the stale-byte count.
pub struct Replay {
    pub index: Map<Seq<char>, CommandPos>,
    pub contents: Map<Seq<char>, Seq<char>>,
    pub stale: int,
}

pub open spec fn empty_replay() -> Replay {
    Replay { index: Map::empty(), contents: Map::empty(), stale: 0 }
}

/// The offset at which the `i`-th entry of a log starts.
pub open spec fn entry_start(es: Seq<EntryView>, i: int) -> u64 {
    if i <= 0 {
        0
    } else {
        es[i - 1].end
    }
}

/// Every entry ends at or after the offset where it starts.
pub open spec fn offsets_ascending(es: Seq<EntryView>) -> bool {
    forall|i: int| 0 <= i < es.len() ==> entry_start(es, i) <= #[trigger] es[i].end
}

/// Replays the command `e`, found in generation `gen` from offset `start`.
pub open spec fn apply_entry(r: Replay, gen: u64, start: u64, e: EntryView) -> Replay {
    match e.command {
        CommandView::Put { key, value } => Replay {
            index: r.index.insert(key, CommandPos::of_range(gen, start, e.end)),
            contents: r.contents.insert(key, value),
            stale: r.stale + superseded_len(r.index, key),
        },
        CommandView::Remove { key } => Replay {
            index: r.index.remove(key),
            contents: r.contents.remove(key),
            stale: r.stale + superseded_len(r.index, key) + (e.end - start),
        },
    }
}

/// Replays the entries of the log of generation `gen`, first to last.
pub open spec fn replay_log(r: Replay, gen: u64, es: Seq<EntryView>) -> Replay
    decreases es.len(),
{
    if es.len() == 0 {
        r
    } else {
        apply_entry(
            replay_log(r, gen, es.drop_last()),
            gen,
            entry_start(es, es.len() - 1),
            es.last(),
        )
    }
}

/// Replays the logs of the generations `gens`, in the order given.
pub open spec fn replay_logs(gens: Seq<u64>, logs: Seq<Seq<EntryView>>) -> Replay
    decreases gens.len(),
{
    if gens.len() == 0 || logs.len() != gens.len() {
        empty_replay()
    } else {
        replay_log(replay_logs(gens.drop_last(), logs.drop_last()), gens.last(), logs.last())
    }
}

/// The generation written to after opening logs of generations `gens`.
pub open spec fn next_gen_of(gens: Seq<u64>) -> int {
    if gens.len() == 0 {
        1
    } else {
        gens.last() + 1
    }
}

} // verus!
