//! What a lookup finds in a directory of generations: the directory as a
//! mathematical value, the answer that the steps of a lookup arrive at, and
//! the laws of flushing, masking and clearing.

use super::byte_utils::lemma_text_of_encoded;
use super::data_file::{
    data_image, fits, index_entries, lemma_record_at_start, read_entry_text, record_start,
};
use super::index_file::{
    first_offset, index_chunks, index_image, index_record_start, index_search,
    lemma_index_search_written,
};
use super::{data_step, first_step, index_step, older, DataGen, FindStep};
use crate::key_order::lemma_precedes_asymmetric;
use crate::memtable::{as_map, holds_at, lemma_as_map_at, lookup, sorted, EntrySeq, GetResult};
use vstd::prelude::*;
use vstd::utf8::encode_utf8;

verus! {

/// The files of a table: the content of the index file and of the data file
/// of each generation that has one.
pub struct Directory {
    pub index: Map<int, Seq<u8>>,
    pub data: Map<int, Seq<u8>>,
}

impl Directory {
    /// The content of the index file of generation `g`, if there is one.
    pub open spec fn index_of(self, g: int) -> Option<Seq<u8>> {
        if self.index.contains_key(g) {
            Some(self.index[g])
        } else {
            None
        }
    }

    /// The content of the data file of generation `g`, if there is one.
    pub open spec fn data_of(self, g: int) -> Option<Seq<u8>> {
        if self.data.contains_key(g) {
            Some(self.data[g])
        } else {
            None
        }
    }

    /// The directory after the two files that a flush of `entries` plans
    /// for generation `g` were written.
    pub open spec fn flushed(self, g: int, entries: EntrySeq<String>) -> Directory {
        Directory {
            index: self.index.insert(g, index_image(index_entries(entries))),
            data: self.data.insert(g, data_image(entries)),
        }
    }

    /// The directory after the files of the generations 0 to `newest` were
    /// removed.
    pub open spec fn cleared(self, newest: int) -> Directory {
        Directory {
            index: self.index.remove_keys(Set::new(|g: int| 0 <= g <= newest)),
            data: self.data.remove_keys(Set::new(|g: int| 0 <= g <= newest)),
        }
    }
}

/// A value or a tombstone as text.
pub open spec fn as_text(found: GetResult<String>) -> GetResult<Seq<char>> {
    match found {
        GetResult::Found(value) => GetResult::Found(value@),
        GetResult::Deleted => GetResult::Deleted,
        GetResult::NotFound => GetResult::NotFound,
    }
}

/// What generation `g` knows of `key`: its index gives an offset for the
/// key, and the record at that offset in its data file is the key's.
pub open spec fn generation_lookup(dir: Directory, g: int, key: Seq<char>) -> GetResult<Seq<char>> {
    match (dir.index_of(g), dir.data_of(g)) {
        (Some(index), Some(data)) => match index_search(index, 0, encode_utf8(key)) {
            Some(offset) => match read_entry_text(data, offset as int) {
                Some((found_key, value)) => if found_key == key {
                    match value {
                        Some(text) => GetResult::Found(text),
                        None => GetResult::Deleted,
                    }
                } else {
                    GetResult::NotFound
                },
                None => GetResult::NotFound,
            },
            None => GetResult::NotFound,
        },
        _ => GetResult::NotFound,
    }
}

/// What the generations from `newest` down to 0 know of `key`: the newest
/// that knows anything decides, a value by being found and a tombstone by
/// hiding all that is older.
pub open spec fn disk_lookup(dir: Directory, newest: int, key: Seq<char>) -> Option<Seq<char>>
    decreases newest + 1,
{
    if newest < 0 {
        None
    } else {
        match generation_lookup(dir, newest, key) {
            GetResult::Found(value) => Some(value),
            GetResult::Deleted => None,
            GetResult::NotFound => disk_lookup(dir, newest - 1, key),
        }
    }
}

/// What a table knows of `key`: a snapshot in flight decides where it
/// knows the key, else the generations on disk do.
pub open spec fn table_lookup(
    flushing: Option<EntrySeq<String>>,
    dir: Directory,
    newest: int,
    key: Seq<char>,
) -> Option<Seq<char>> {
    match flushing {
        Some(entries) => match lookup(as_map(entries), encode_utf8(key)) {
            GetResult::Found(value) => Some(value@),
            GetResult::Deleted => None,
            GetResult::NotFound => disk_lookup(dir, newest, key),
        },
        None => disk_lookup(dir, newest, key),
    }
}

/// How far a step is from the end of its lookup.
pub open spec fn steps_left(step: FindStep<Seq<char>>) -> nat {
    match step {
        FindStep::Done(_) => 0,
        FindStep::ReadIndex(g) => if g < 0 {
            2
        } else {
            (2 * g + 2) as nat
        },
        FindStep::ReadData(entry) => if entry.data_gen < 0 {
            1
        } else {
            (2 * entry.data_gen + 1) as nat
        },
    }
}

/// The answer at which a lookup arrives from `step` on, where each file
/// that a step asks for is read from `dir`.
pub open spec fn follow(dir: Directory, step: FindStep<Seq<char>>, key: Seq<char>) -> Option<
    Seq<char>,
>
    decreases steps_left(step),
{
    match step {
        FindStep::Done(answer) => answer,
        FindStep::ReadIndex(g) => follow(dir, index_step(g, dir.index_of(g as int), key), key),
        FindStep::ReadData(entry) => follow(
            dir,
            data_step(entry, dir.data_of(entry.data_gen as int), key),
            key,
        ),
    }
}

/// Followed to their end, the steps of a lookup that begins with the index
/// of generation `g` arrive at what the generations from `g` down know of
/// the key.
pub proof fn lemma_follow_from_generation(dir: Directory, g: DataGen, key: Seq<char>)
    requires
        g >= 0,
    ensures
        follow(dir, FindStep::ReadIndex(g), key) == disk_lookup(dir, g as int, key),
    decreases g,
{
    if g > 0 {
        lemma_follow_from_generation(dir, (g - 1) as DataGen, key);
    }
    let after_index = index_step(g, dir.index_of(g as int), key);
    assert(follow(dir, FindStep::ReadIndex(g), key) == follow(dir, after_index, key));
    assert(follow(dir, older(g), key) == disk_lookup(dir, g - 1, key));
    match after_index {
        FindStep::ReadData(entry) => {
            let after_data = data_step(entry, dir.data_of(g as int), key);
            assert(follow(dir, after_index, key) == follow(dir, after_data, key));
        },
        _ => {},
    }
}

/// Followed to their end, the steps of a lookup arrive at what the table
/// knows of the key.
pub proof fn law_steps_arrive_at_lookup(
    flushing: Option<EntrySeq<String>>,
    dir: Directory,
    newest: DataGen,
    key: Seq<char>,
)
    requires
        newest >= 0,
    ensures
        follow(dir, first_step(flushing, newest, key), key) == table_lookup(
            flushing,
            dir,
            newest as int,
            key,
        ),
{
    lemma_follow_from_generation(dir, newest, key);
}

/// In sorted entries the first entry from `from` on with the key of entry
/// `i` is entry `i`.
proof fn lemma_first_offset_of_entry(entries: EntrySeq<String>, from: int, i: int)
    requires
        sorted(entries),
        0 <= from <= i < entries.len(),
    ensures
        first_offset(index_entries(entries), from, entries[i].0) == Some(
            record_start(entries, i) as u64,
        ),
    decreases i - from,
{
    if from < i {
        lemma_precedes_asymmetric(entries[from].0, entries[i].0);
        lemma_first_offset_of_entry(entries, from + 1, i);
    }
}

/// Where no entry has the key, no offset stands with it.
proof fn lemma_first_offset_of_stranger(entries: EntrySeq<String>, from: int, key: Seq<u8>)
    requires
        0 <= from <= entries.len(),
        forall|i: int| !holds_at(entries, key, i),
    ensures
        first_offset(index_entries(entries), from, key) is None,
    decreases entries.len() - from,
{
    if from < entries.len() {
        assert(!holds_at(entries, key, from));
        lemma_first_offset_of_stranger(entries, from + 1, key);
    }
}

/// Flush round trip: the generation that a flush wrote knows of every key
/// what the snapshot knew of it: the value of a key that it held, the
/// deletion of a key whose tombstone it held, and nothing of any other.
pub proof fn law_flush_round_trip(
    dir: Directory,
    g: int,
    entries: EntrySeq<String>,
    key: Seq<char>,
)
    requires
        sorted(entries),
        fits(entries),
    ensures
        generation_lookup(dir.flushed(g, entries), g, key) == as_text(
            lookup(as_map(entries), encode_utf8(key)),
        ),
{
    let wanted = encode_utf8(key);
    let index = index_image(index_entries(entries));
    let data = data_image(entries);
    let after = dir.flushed(g, entries);
    assert(after.index_of(g) == Some(index));
    assert(after.data_of(g) == Some(data));
    assert(index_entries(entries).len() == entries.len());
    assert forall|j: int| 0 <= j < index_entries(entries).len() implies (
    #[trigger] index_entries(entries)[j]).0.len() <= u64::MAX by {
        assert(entries[j].0.len() <= u64::MAX);
    }
    lemma_index_search_written(index_entries(entries), 0, wanted);
    assert(index_chunks(index_entries(entries)).take(0) =~= Seq::<Seq<u8>>::empty());
    assert(index_record_start(index_entries(entries), 0) == 0);
    if as_map(entries).contains_key(wanted) {
        let i = choose|i: int| holds_at(entries, wanted, i);
        lemma_as_map_at(entries, i);
        lemma_first_offset_of_entry(entries, 0, i);
        lemma_record_at_start(entries, i);
        lemma_text_of_encoded(key);
        match entries[i].1 {
            Some(value) => {
                lemma_text_of_encoded(value@);
            },
            None => {},
        }
    } else {
        lemma_first_offset_of_stranger(entries, 0, wanted);
    }
}

/// A flush leaves what the other generations know as it was.
pub proof fn law_flush_keeps_other_generations(
    dir: Directory,
    g: int,
    entries: EntrySeq<String>,
    h: int,
    key: Seq<char>,
)
    requires
        h != g,
    ensures
        generation_lookup(dir.flushed(g, entries), h, key) == generation_lookup(dir, h, key),
{
}

/// Generation masking: a key whose tombstone stands in a generation is not
/// found, whatever older generations hold of it, as long as no newer
/// generation knows the key.
pub proof fn law_generation_masking(dir: Directory, newest: int, deleted_in: int, key: Seq<char>)
    requires
        0 <= deleted_in <= newest,
        generation_lookup(dir, deleted_in, key) == GetResult::<Seq<char>>::Deleted,
        forall|g: int|
            deleted_in < g <= newest ==> #[trigger] generation_lookup(dir, g, key)
                == GetResult::<Seq<char>>::NotFound,
    ensures
        disk_lookup(dir, newest, key) is None,
    decreases newest - deleted_in,
{
    if deleted_in < newest {
        law_generation_masking(dir, newest - 1, deleted_in, key);
    }
}

/// Newest wins: a key has the value that the newest generation which knows
/// the key holds of it, whatever older generations hold.
pub proof fn law_newest_wins(
    dir: Directory,
    newest: int,
    written_in: int,
    key: Seq<char>,
    value: Seq<char>,
)
    requires
        0 <= written_in <= newest,
        generation_lookup(dir, written_in, key) == GetResult::Found(value),
        forall|g: int|
            written_in < g <= newest ==> #[trigger] generation_lookup(dir, g, key)
                == GetResult::<Seq<char>>::NotFound,
    ensures
        disk_lookup(dir, newest, key) == Some(value),
    decreases newest - written_in,
{
    if written_in < newest {
        law_newest_wins(dir, newest - 1, written_in, key, value);
    }
}

/// A key that was written in one generation and deleted in a later one is
/// not found after both flushes.
pub proof fn law_deleted_after_written(
    dir: Directory,
    written_in: int,
    deleted_in: int,
    written: EntrySeq<String>,
    deleted: EntrySeq<String>,
    key: Seq<char>,
)
    requires
        0 <= written_in < deleted_in,
        sorted(written),
        fits(written),
        sorted(deleted),
        fits(deleted),
        lookup(as_map(written), encode_utf8(key)) is Found,
        lookup(as_map(deleted), encode_utf8(key)) is Deleted,
    ensures
        disk_lookup(dir.flushed(written_in, written).flushed(deleted_in, deleted), deleted_in, key)
            is None,
{
    law_flush_round_trip(dir.flushed(written_in, written), deleted_in, deleted, key);
}

/// A key that was written in one generation and written again in a later
/// one has the later value after both flushes.
pub proof fn law_written_again(
    dir: Directory,
    first_in: int,
    again_in: int,
    first: EntrySeq<String>,
    again: EntrySeq<String>,
    key: Seq<char>,
)
    requires
        0 <= first_in < again_in,
        sorted(first),
        fits(first),
        sorted(again),
        fits(again),
        lookup(as_map(first), encode_utf8(key)) is Found,
        lookup(as_map(again), encode_utf8(key)) is Found,
    ensures
        disk_lookup(dir.flushed(first_in, first).flushed(again_in, again), again_in, key) == Some(
            lookup(as_map(again), encode_utf8(key))->Found_0@,
        ),
{
    law_flush_round_trip(dir.flushed(first_in, first), again_in, again, key);
}

/// After a flush a lookup finds what the snapshot knew, and for any other
/// key what the table knew before.
pub proof fn law_lookup_after_flush(
    dir: Directory,
    newest: int,
    entries: EntrySeq<String>,
    key: Seq<char>,
)
    requires
        newest >= 0,
        sorted(entries),
        fits(entries),
    ensures
        disk_lookup(dir.flushed(newest + 1, entries), newest + 1, key) == match lookup(
            as_map(entries),
            encode_utf8(key),
        ) {
            GetResult::Found(value) => Some(value@),
            GetResult::Deleted => None,
            GetResult::NotFound => disk_lookup(dir, newest, key),
        },
{
    law_flush_round_trip(dir, newest + 1, entries, key);
    law_later_generations_are_not_read(dir.flushed(newest + 1, entries), dir, newest, key);
}

/// A flush changes no answer: what a lookup finds while the snapshot is in
/// flight, it finds once the files are written and the generation has gone
/// up.
pub proof fn law_flush_changes_no_answer(
    dir: Directory,
    newest: int,
    entries: EntrySeq<String>,
    key: Seq<char>,
)
    requires
        newest >= 0,
        sorted(entries),
        fits(entries),
    ensures
        table_lookup(Some(entries), dir, newest, key) == table_lookup(
            None,
            dir.flushed(newest + 1, entries),
            newest + 1,
            key,
        ),
{
    law_lookup_after_flush(dir, newest, entries, key);
}

/// A lookup reads the generations from the newest down to 0 and no other:
/// files of a later generation, such as a flush that did not finish leaves
/// behind, change no answer.
pub proof fn law_later_generations_are_not_read(
    dir: Directory,
    other: Directory,
    newest: int,
    key: Seq<char>,
)
    requires
        forall|g: int|
            0 <= g <= newest ==> dir.index_of(g) == other.index_of(g) && dir.data_of(g)
                == other.data_of(g),
    ensures
        disk_lookup(dir, newest, key) == disk_lookup(other, newest, key),
    decreases newest + 1,
{
    if newest >= 0 {
        assert(dir.index_of(newest) == other.index_of(newest));
        law_later_generations_are_not_read(dir, other, newest - 1, key);
    }
}

/// Clearing: once the files of the generations 0 to `newest` are removed,
/// none of them knows any key, no lookup from generation `newest` down
/// finds anything, and removing them once more changes nothing.
pub proof fn law_clear(dir: Directory, newest: int, key: Seq<char>)
    requires
        newest >= 0,
    ensures
        forall|g: int|
            0 <= g <= newest ==> dir.cleared(newest).index_of(g) is None && dir.cleared(
                newest,
            ).data_of(g) is None,
        disk_lookup(dir.cleared(newest), newest, key) is None,
        dir.cleared(newest).cleared(newest) == dir.cleared(newest),
        dir.cleared(newest).cleared(0) == dir.cleared(newest),
{
    lemma_cleared_lookup(dir, newest, newest, key);
    let once = dir.cleared(newest);
    assert(once.cleared(newest).index =~= once.index);
    assert(once.cleared(newest).data =~= once.data);
    assert(once.cleared(0).index =~= once.index);
    assert(once.cleared(0).data =~= once.data);
}

/// In a cleared directory no lookup from a cleared generation down finds
/// anything.
proof fn lemma_cleared_lookup(dir: Directory, newest: int, from: int, key: Seq<char>)
    requires
        from <= newest,
    ensures
        disk_lookup(dir.cleared(newest), from, key) is None,
    decreases from + 1,
{
    if from >= 0 {
        assert(dir.cleared(newest).index_of(from) is None);
        lemma_cleared_lookup(dir, newest, from - 1, key);
    }
}

/// A flush that fails changes no answer: with no snapshot in flight and
/// the generation as it was, a lookup answers as before the flush,
/// whichever of the files of the next generation were written.
pub proof fn law_failed_flush_changes_no_answer(
    dir: Directory,
    after: Directory,
    newest: DataGen,
    key: Seq<char>,
)
    requires
        newest >= 0,
        forall|g: int|
            0 <= g <= newest ==> after.index_of(g) == dir.index_of(g) && after.data_of(g)
                == dir.data_of(g),
    ensures
        first_step(None, newest, key) == FindStep::<Seq<char>>::ReadIndex(newest),
        table_lookup(None, after, newest as int, key) == table_lookup(
            None,
            dir,
            newest as int,
            key,
        ),
        follow(after, first_step(None, newest, key), key) == follow(
            dir,
            first_step(None, newest, key),
            key,
        ),
{
    law_later_generations_are_not_read(after, dir, newest as int, key);
    law_steps_arrive_at_lookup(None, after, newest, key);
    law_steps_arrive_at_lookup(None, dir, newest, key);
}

} // verus!
