//! The on-disk side of the store: generation-numbered data and index
//! files, their byte formats, and the rules by which a key is looked up in
//! them, newest generation first.

pub mod byte_utils;
pub mod data_file;
pub mod directory;
pub mod index_file;

use self::byte_utils::{decimal_value, parse_decimal};
use self::data_file::{data_image, fits, index_entries, read_entry_text, DataEntry, DataFile};
use self::index_file::{index_image, index_search, IndexEntry, IndexFile};
use crate::memtable::{lookup, EntrySeq, GetResult, MemtableEntries};
use regex::Regex;
use std::collections::HashMap;
use vstd::prelude::*;
use vstd::utf8::encode_utf8;

verus! {

/// The number of a generation: 0 before the first flush, one more with
/// each flush.
pub type DataGen = i32;

/// A place in a data file: the number of bytes before it.
pub type Offset = u64;

/// What follows the prefix in the pattern by which data files are told from
/// other files: an underscore and the generation's digits, as a group.
pub const GENERATION_PATTERN: &'static str = "_(?P<gen>\\d+)";

/// The group of the pattern that holds the generation's digits.
pub const GENERATION_GROUP: &'static str = "gen";

/// The text that the group named `group` takes in the leftmost match of the
/// regular expression `pattern` in `text`, as the regex crate finds it:
/// `None` where `pattern` is no regular expression, where nothing in
/// `text` matches, and where the match leaves the group out.
pub uninterp spec fn regex_capture(pattern: Seq<char>, group: Seq<char>, text: Seq<char>) -> Option<
    Seq<char>,
>;

/// `Regex::new`, `Regex::captures`, `Captures::name` and `Match::as_str` of
/// the regex crate, one after the other: what the group `group` of
/// `pattern` takes in `text`. Nothing is claimed of the result but that it
/// depends on the three texts alone.
#[verifier::external_body]
fn capture_group(pattern: &str, group: &str, text: &str) -> (r: Option<String>)
    ensures
        regex_capture(pattern@, group@, text@) == match r {
            Some(s) => Some(s@),
            None => None,
        },
{
    match Regex::new(pattern) {
        Ok(re) => re.captures(text).and_then(|c| c.name(group)).map(|m| m.as_str().to_string()),
        Err(_) => None,
    }
}

/// The pattern that the name of a data file matches.
pub open spec fn data_file_pattern() -> Seq<char> {
    DataFile::FILE_NAME_PREFIX@ + GENERATION_PATTERN@
}

/// The generation that digits taken from a file name write: `None` where
/// nothing was taken, and where the digits are not the digits 0 to 9 of a
/// number that fits.
pub open spec fn generation_of_digits(digits: Option<Seq<char>>) -> Option<DataGen> {
    match digits {
        Some(text) => match decimal_value(text) {
            Some(n) => if n <= i32::MAX {
                Some(n as i32)
            } else {
                None
            },
            None => None,
        },
        None => None,
    }
}

/// The generations that texts taken from file names write, in the order of
/// the texts; a text that writes none is passed over.
pub open spec fn digit_generations(digits: Seq<Option<Seq<char>>>) -> Seq<DataGen>
    decreases digits.len(),
{
    if digits.len() == 0 {
        Seq::empty()
    } else {
        let rest = digit_generations(digits.drop_last());
        match generation_of_digits(digits.last()) {
            Some(g) => rest.push(g),
            None => rest,
        }
    }
}

/// What the pattern of data files takes from each of `names`.
pub open spec fn captured_digits(names: Seq<String>) -> Seq<Option<Seq<char>>> {
    Seq::new(
        names.len(),
        |i: int| regex_capture(data_file_pattern(), GENERATION_GROUP@, names[i]@),
    )
}

/// The generations that `names` give, in the order of the names: those
/// that the digits write which the pattern takes from each name.
pub open spec fn generations(names: Seq<String>) -> Seq<DataGen> {
    digit_generations(captured_digits(names))
}

/// Texts as exec code holds them.
pub open spec fn texts(digits: Seq<Option<String>>) -> Seq<Option<Seq<char>>> {
    Seq::new(digits.len(), |i: int| text_view(digits[i]))
}

/// No number of `list` is followed by a smaller one.
pub open spec fn ascending(list: Seq<DataGen>) -> bool {
    forall|i: int, j: int| 0 <= i <= j < list.len() ==> list[i] <= list[j]
}

/// `latest` is the greatest number of `list`, or 0 where `list` is empty.
pub open spec fn is_latest(list: Seq<DataGen>, latest: DataGen) -> bool {
    &&& forall|i: int| 0 <= i < list.len() ==> list[i] <= latest
    &&& if list.len() == 0 {
        latest == 0
    } else {
        list.contains(latest)
    }
}

/// The generation that digits taken from a file name write.
pub fn generation_from_digits(digits: &Option<String>) -> (r: Option<DataGen>)
    ensures
        r == generation_of_digits(text_view(*digits)),
{
    match digits {
        Some(text) => parse_decimal(text.as_str()),
        None => None,
    }
}

/// Puts `g` into the ascending `list` at its place.
fn insert_ascending(list: &mut Vec<DataGen>, g: DataGen)
    requires
        ascending(old(list)@),
    ensures
        ascending(final(list)@),
        final(list)@.to_multiset() == old(list)@.to_multiset().insert(g),
{
    let mut at: usize = 0;
    while at < list.len() && list[at] <= g
        invariant
            at <= list.len(),
            list@ == old(list)@,
            forall|i: int| 0 <= i < at ==> list@[i] <= g,
        decreases list.len() - at,
    {
        at = at + 1;
    }
    proof {
        vstd::seq_lib::to_multiset_insert(list@, at as int, g);
        let after = list@.insert(at as int, g);
        assert forall|i: int, j: int| 0 <= i <= j < after.len() implies after[i] <= after[j] by {
            let si = if i < at { i } else { i - 1 };
            let sj = if j < at { j } else { j - 1 };
            if i != at && j != at {
                assert(list@[si] <= list@[sj]);
            } else if i == at && j != at {
                assert(list@[at as int] <= list@[sj]);
            }
        }
    }
    list.insert(at, g);
}

/// The generations that texts taken from file names write, in ascending
/// order.
pub fn generations_from_digits(digits: &Vec<Option<String>>) -> (list: Vec<DataGen>)
    ensures
        ascending(list@),
        list@.to_multiset() == digit_generations(texts(digits@)).to_multiset(),
{
    let mut list: Vec<DataGen> = Vec::new();
    let mut i: usize = 0;
    proof {
        assert(texts(digits@).take(0) =~= Seq::<Option<Seq<char>>>::empty());
    }
    while i < digits.len()
        invariant
            i <= digits.len(),
            ascending(list@),
            list@.to_multiset() == digit_generations(texts(digits@).take(i as int)).to_multiset(),
        decreases digits.len() - i,
    {
        proof {
            let so_far = texts(digits@).take(i as int);
            assert(texts(digits@).take(i + 1).drop_last() =~= so_far);
            vstd::seq_lib::to_multiset_build(
                digit_generations(so_far),
                generation_of_digits(texts(digits@)[i as int]).unwrap_or(0),
            );
        }
        match generation_from_digits(&digits[i]) {
            Some(g) => {
                insert_ascending(&mut list, g);
            },
            None => {},
        }
        i = i + 1;
    }
    proof {
        assert(texts(digits@).take(i as int) =~= texts(digits@));
    }
    list
}

/// The last number of the ascending `list`, which is its greatest; 0 where
/// `list` is empty.
fn latest_of(list: &Vec<DataGen>) -> (latest: DataGen)
    requires
        ascending(list@),
    ensures
        is_latest(list@, latest),
{
    if list.len() == 0 {
        0
    } else {
        let latest = list[list.len() - 1];
        assert(list@.contains(latest));
        latest
    }
}

/// The newest generation that texts taken from file names write; 0 where
/// none writes any.
pub fn latest_from_digits(digits: &Vec<Option<String>>) -> (latest: DataGen)
    ensures
        is_latest(digit_generations(texts(digits@)), latest),
        latest >= 0,
{
    let list = generations_from_digits(digits);
    let latest = latest_of(&list);
    proof {
        let all = digit_generations(texts(digits@));
        lemma_latest_of_same_numbers(list@, all, latest);
        lemma_generations_not_negative(texts(digits@));
        if all.len() > 0 {
            let i = choose|i: int| 0 <= i < all.len() && all[i] == latest;
            assert(all[i] >= 0);
        }
    }
    latest
}

/// What is to be done next to answer a lookup, or the answer.
#[derive(Debug, PartialEq, Eq)]
pub enum FindStep<T> {
    /// The lookup has ended: with the value of the key, or with `None`
    /// where the key is deleted or unknown.
    Done(Option<T>),
    /// The index file of this generation is to be read.
    ReadIndex(DataGen),
    /// The data file of the entry's generation is to be read.
    ReadData(IndexEntry),
}

impl View for FindStep<String> {
    type V = FindStep<Seq<char>>;

    open spec fn view(&self) -> FindStep<Seq<char>> {
        match *self {
            FindStep::Done(Some(value)) => FindStep::Done(Some(value@)),
            FindStep::Done(None) => FindStep::Done(None),
            FindStep::ReadIndex(data_gen) => FindStep::ReadIndex(data_gen),
            FindStep::ReadData(entry) => FindStep::ReadData(entry),
        }
    }
}

/// The text of a value, where there is one.
pub open spec fn text_view(value: Option<String>) -> Option<Seq<char>> {
    match value {
        Some(text) => Some(text@),
        None => None,
    }
}

/// The content of a file that was read, `None` where there is no such
/// file.
pub open spec fn content_of(file: Option<&[u8]>) -> Option<Seq<u8>> {
    match file {
        Some(content) => Some(content@),
        None => None,
    }
}

/// The step behind a generation that knows nothing of the key: on to the
/// generation before it, or the end behind generation 0.
pub open spec fn older(data_gen: DataGen) -> FindStep<Seq<char>> {
    if data_gen <= 0 {
        FindStep::Done(None)
    } else {
        FindStep::ReadIndex((data_gen - 1) as DataGen)
    }
}

/// The first step of a lookup: what a snapshot in flight knows of the key
/// ends it, else it begins with the newest generation.
pub open spec fn first_step(
    flushing: Option<EntrySeq<String>>,
    newest: DataGen,
    key: Seq<char>,
) -> FindStep<Seq<char>> {
    match flushing {
        Some(entries) => match lookup(crate::memtable::as_map(entries), encode_utf8(key)) {
            GetResult::Found(value) => FindStep::Done(Some(value@)),
            GetResult::Deleted => FindStep::Done(None),
            GetResult::NotFound => FindStep::ReadIndex(newest),
        },
        None => FindStep::ReadIndex(newest),
    }
}

/// The step behind the reading of the index file of `data_gen`: on to the
/// record whose offset stands with the key, or to the generation before.
pub open spec fn index_step(data_gen: DataGen, index: Option<Seq<u8>>, key: Seq<char>) -> FindStep<
    Seq<char>,
> {
    match index {
        Some(content) => match index_search(content, 0, encode_utf8(key)) {
            Some(offset) => FindStep::ReadData(IndexEntry { data_gen, offset }),
            None => older(data_gen),
        },
        None => older(data_gen),
    }
}

/// The step behind the reading of the data file that `entry` points into:
/// the end where the record there is the key's, with its value or with
/// `None` for a tombstone; else on to the generation before.
pub open spec fn data_step(entry: IndexEntry, data: Option<Seq<u8>>, key: Seq<char>) -> FindStep<
    Seq<char>,
> {
    match data {
        Some(content) => match read_entry_text(content, entry.offset as int) {
            Some((found_key, value)) => if found_key == key {
                FindStep::Done(value)
            } else {
                older(entry.data_gen)
            },
            None => older(entry.data_gen),
        },
        None => older(entry.data_gen),
    }
}

/// Each of `files` is the data file of its generation in `directory`.
pub open spec fn kept_in(files: Map<DataGen, DataFile>, directory: Seq<char>) -> bool {
    forall|g: DataGen| #[trigger]
        files.contains_key(g) ==> files[g].generation() == g && files[g].directory() == directory
}

/// The two files that a flush has to write, the data file first.
pub struct FlushPlan {
    pub data_file: DataFile,
    pub data: Vec<u8>,
    pub index_file: IndexFile,
    pub index: Vec<u8>,
}

/// The generations on disk as the table knows them: the number of the
/// newest, a snapshot that is being flushed, and data files kept at hand.
pub struct FileDisktable {
    dir_name: String,
    data_gen: DataGen,
    flushing: Option<MemtableEntries<String, String>>,
    data_files: HashMap<DataGen, DataFile>,
}

impl FileDisktable {
    /// The directory of the table.
    pub closed spec fn directory(&self) -> Seq<char> {
        self.dir_name@
    }

    /// The newest generation that is fully written.
    pub closed spec fn generation(&self) -> DataGen {
        self.data_gen
    }

    /// The entries of the snapshot that is being flushed, if one is.
    pub closed spec fn flushing_entries(&self) -> Option<EntrySeq<String>> {
        match self.flushing {
            Some(entries) => Some(entries@),
            None => None,
        }
    }

    /// The data files kept at hand, by generation.
    pub closed spec fn kept_files(&self) -> Map<DataGen, DataFile> {
        self.data_files@
    }

    /// The generation is not negative, a snapshot in flight is in key
    /// order and has a generation left to go to, and each data file kept
    /// at hand is that of its generation in the table's directory.
    pub open spec fn wf(&self) -> bool {
        &&& self.generation() >= 0
        &&& (self.flushing_entries() matches Some(entries) ==> crate::memtable::sorted(entries)
            && self.generation() < DataGen::MAX)
        &&& kept_in(self.kept_files(), self.directory())
    }

    /// What the pattern of data files takes from each of `file_names`.
    fn capture_digits(file_names: &Vec<String>) -> (digits: Vec<Option<String>>)
        ensures
            texts(digits@) == captured_digits(file_names@),
    {
        let mut pattern = String::from_str(DataFile::FILE_NAME_PREFIX);
        pattern.append(GENERATION_PATTERN);
        let mut digits: Vec<Option<String>> = Vec::new();
        let mut i: usize = 0;
        while i < file_names.len()
            invariant
                i <= file_names.len(),
                pattern@ == data_file_pattern(),
                digits@.len() == i,
                texts(digits@) == captured_digits(file_names@).take(i as int),
            decreases file_names.len() - i,
        {
            let ghost before = digits@;
            let taken = capture_group(pattern.as_str(), GENERATION_GROUP, file_names[i].as_str());
            digits.push(taken);
            proof {
                let goal = captured_digits(file_names@).take(i + 1);
                assert forall|j: int| 0 <= j < i + 1 implies texts(digits@)[j] == goal[j] by {
                    if j < i {
                        assert(texts(before)[j] == captured_digits(file_names@).take(i as int)[j]);
                    }
                }
                assert(texts(digits@) =~= goal);
            }
            i = i + 1;
        }
        proof {
            assert(captured_digits(file_names@).take(i as int) =~= captured_digits(file_names@));
        }
        digits
    }

    /// The generations that the names of data files among `file_names`
    /// give, in ascending order.
    pub fn get_data_gens(file_names: &Vec<String>) -> (list: Vec<DataGen>)
        ensures
            ascending(list@),
            list@.to_multiset() == generations(file_names@).to_multiset(),
    {
        let digits = Self::capture_digits(file_names);
        generations_from_digits(&digits)
    }

    /// The newest generation that the names of data files among
    /// `file_names` give; 0 where none gives any.
    pub fn get_latest_data_gen(file_names: &Vec<String>) -> (latest: DataGen)
        ensures
            is_latest(generations(file_names@), latest),
            latest >= 0,
    {
        let digits = Self::capture_digits(file_names);
        latest_from_digits(&digits)
    }

    /// The table over the directory `dir_name` at generation `data_gen`,
    /// with no snapshot in flight.
    pub fn at_generation(dir_name: &str, data_gen: DataGen) -> (table: FileDisktable)
        requires
            data_gen >= 0,
        ensures
            table.wf(),
            table.directory() == dir_name@,
            table.generation() == data_gen,
            table.flushing_entries() is None,
            table.kept_files() == Map::<DataGen, DataFile>::empty(),
    {
        FileDisktable {
            data_gen,
            dir_name: dir_name.to_owned(),
            flushing: None,
            data_files: HashMap::new(),
        }
    }

    /// The table over the directory `dir_name` in which files of the names
    /// `file_names` stand: its generation is the newest that the names
    /// give.
    pub fn new(dir_name: &str, file_names: &Vec<String>) -> (table: FileDisktable)
        ensures
            table.wf(),
            table.directory() == dir_name@,
            is_latest(generations(file_names@), table.generation()),
            table.flushing_entries() is None,
            table.kept_files() == Map::<DataGen, DataFile>::empty(),
    {
        let data_gen = Self::get_latest_data_gen(file_names);
        Self::at_generation(dir_name, data_gen)
    }

    /// The newest generation that is fully written.
    pub fn data_gen(&self) -> (r: DataGen)
        ensures
            r == self.generation(),
    {
        self.data_gen
    }

    /// The directory of the table.
    pub fn dir_name(&self) -> (r: &str)
        ensures
            r@ == self.directory(),
    {
        self.dir_name.as_str()
    }

    /// Whether a snapshot is being flushed.
    pub fn is_flushing(&self) -> (r: bool)
        ensures
            r == self.flushing_entries() is Some,
    {
        self.flushing.is_some()
    }

    /// Calls `f` on the data file of generation `gen`: on the one kept at
    /// hand, or on one made for the call.
    pub fn with_data_file<T>(&self, gen: DataGen, f: impl Fn(&DataFile) -> T) -> (r: T)
        requires
            self.wf(),
            forall|file: DataFile|
                file.generation() == gen && file.directory() == self.directory() ==> f.requires(
                    (&file,),
                ),
        ensures
            self.kept_files().contains_key(gen) ==> f.ensures((&self.kept_files()[gen],), r),
            exists|file: DataFile|
                file.generation() == gen && file.directory() == self.directory() && f.ensures(
                    (&file,),
                    r,
                ),
    {
        match self.data_files.get(&gen) {
            Some(found) => {
                assert(self.kept_files().contains_key(gen));
                f(found)
            },
            None => {
                let file = DataFile::of(self.dir_name.as_str(), gen);
                f(&file)
            },
        }
    }

    /// The index file of generation `data_gen`.
    pub fn index_file(&self, data_gen: DataGen) -> (file: IndexFile)
        ensures
            file.generation() == data_gen,
            file.directory() == self.directory(),
    {
        IndexFile::of(data_gen, self.dir_name.as_str())
    }

    /// The record that begins at `offset` in `content`, the content of the
    /// data file of generation `data_gen`: its key, and its value or `None`
    /// for a tombstone.
    pub fn fetch(&self, data_gen: DataGen, offset: Offset, content: &[u8]) -> (r: Option<
        (String, Option<String>),
    >)
        requires
            self.wf(),
        ensures
            match r {
                Some((key, value)) => read_entry_text(content@, offset as int) == Some(
                    (key@, text_view(value)),
                ),
                None => read_entry_text(content@, offset as int) is None,
            },
    {
        let read = |file: &DataFile| -> (entry: Option<DataEntry>)
            ensures
                match entry {
                    Some(e) => read_entry_text(content@, offset as int) == Some(e@),
                    None => read_entry_text(content@, offset as int) is None,
                },
            {
                file.read_entry(content, offset)
            };
        let entry = self.with_data_file(data_gen, read);
        match entry {
            Some(entry) => Some((entry.key, entry.value)),
            None => None,
        }
    }

    /// The step behind a generation that knows nothing of the key.
    pub fn next_older(data_gen: DataGen) -> (step: FindStep<String>)
        ensures
            step@ == older(data_gen),
    {
        if data_gen <= 0 {
            FindStep::Done(None)
        } else {
            FindStep::ReadIndex(data_gen - 1)
        }
    }

    /// Begins the lookup of `key`. A snapshot in flight is asked first: it
    /// ends the lookup where it holds the key or a tombstone of it. Else
    /// the generations are gone through from the newest down, each by
    /// `find_in_index` and, where its index holds the key, `find_in_data`.
    pub fn find(&self, key: &str) -> (step: FindStep<String>)
        requires
            self.wf(),
        ensures
            step@ == first_step(self.flushing_entries(), self.generation(), key@),
    {
        match &self.flushing {
            Some(mem_entries) => match mem_entries.get(&key.to_owned()) {
                GetResult::Found(value) => FindStep::Done(Some(value.clone())),
                GetResult::Deleted => FindStep::Done(None),
                GetResult::NotFound => FindStep::ReadIndex(self.data_gen),
            },
            None => FindStep::ReadIndex(self.data_gen),
        }
    }

    /// Goes on with the lookup of `key` where the index file of generation
    /// `data_gen` was read: `index` is its content, `None` where there is
    /// no such file.
    pub fn find_in_index(&self, key: &str, data_gen: DataGen, index: Option<&[u8]>) -> (step:
        FindStep<String>)
        ensures
            step@ == index_step(data_gen, content_of(index), key@),
    {
        match index {
            Some(content) => match self.index_file(data_gen).find_index(content, key) {
                Some(index_entry) => FindStep::ReadData(index_entry),
                None => Self::next_older(data_gen),
            },
            None => Self::next_older(data_gen),
        }
    }

    /// Goes on with the lookup of `key` where the data file that `entry`
    /// points into was read: `data` is its content, `None` where there is
    /// no such file. A record with another key than `key` counts as no
    /// record.
    pub fn find_in_data(&self, key: &str, entry: IndexEntry, data: Option<&[u8]>) -> (step:
        FindStep<String>)
        requires
            self.wf(),
        ensures
            step@ == data_step(entry, content_of(data), key@),
    {
        match data {
            Some(content) => match self.fetch(entry.data_gen, entry.offset, content) {
                Some((found_key, value)) => {
                    if found_key == key.to_owned() {
                        FindStep::Done(value)
                    } else {
                        Self::next_older(entry.data_gen)
                    }
                },
                None => Self::next_older(entry.data_gen),
            },
            None => Self::next_older(entry.data_gen),
        }
    }

    /// Begins the flush of `memtable_entries`: keeps them as the snapshot
    /// in flight, where lookups see them, and gives the content of the data
    /// file and of the index file of the next generation. The flush lasts
    /// until `finish_flush` hears the outcome: only then does the
    /// generation go up, where both files were written, and in either case
    /// the snapshot is in flight no longer.
    pub fn flush(&mut self, memtable_entries: MemtableEntries<String, String>) -> (plan: FlushPlan)
        requires
            old(self).wf(),
            old(self).generation() < DataGen::MAX,
            memtable_entries.wf(),
        ensures
            final(self).wf(),
            final(self).generation() == old(self).generation(),
            final(self).directory() == old(self).directory(),
            final(self).kept_files() == old(self).kept_files(),
            final(self).flushing_entries() == Some(memtable_entries@),
            plan.data_file.generation() == old(self).generation() + 1,
            plan.data_file.directory() == old(self).directory(),
            plan.data@ == data_image(memtable_entries@),
            plan.index_file.generation() == old(self).generation() + 1,
            plan.index_file.directory() == old(self).directory(),
            plan.index@ == index_image(index_entries(memtable_entries@)),
            fits(memtable_entries@),
    {
        let next_data_gen = self.data_gen + 1;
        let new_data_file = DataFile::of(self.dir_name.as_str(), next_data_gen);
        let (data, new_index) = new_data_file.create(&memtable_entries);
        let new_index_file = IndexFile::of(next_data_gen, self.dir_name.as_str());
        let index = new_index_file.create_index(&new_index);
        self.flushing = Some(memtable_entries);
        FlushPlan { data_file: new_data_file, data, index_file: new_index_file, index }
    }

    /// Ends a flush: whatever the outcome, no snapshot is in flight
    /// afterwards. Where both files were written, the generation goes up by
    /// one. Where they were not, the generation stays, so that every lookup
    /// answers as it did before the flush began. Without a flush begun
    /// nothing changes.
    pub fn finish_flush<E>(&mut self, written: Result<(), E>) -> (r: Result<(), E>)
        requires
            old(self).wf(),
        ensures
            r == written,
            final(self).wf(),
            final(self).directory() == old(self).directory(),
            final(self).kept_files() == old(self).kept_files(),
            final(self).flushing_entries() is None,
            written is Ok && old(self).flushing_entries() is Some ==> final(self).generation()
                == old(self).generation() + 1,
            written is Err || old(self).flushing_entries() is None ==> final(self).generation()
                == old(self).generation(),
    {
        if written.is_ok() && self.flushing.is_some() {
            self.data_gen = self.data_gen + 1;
        }
        self.flushing = None;
        written
    }

    /// Begins a full reset: gives, for each generation from 0 to the newest
    /// in turn, its data file and its index file, all of which are to be
    /// removed.
    pub fn clear(&self) -> (files: Vec<(DataFile, IndexFile)>)
        requires
            self.wf(),
        ensures
            files@.len() == self.generation() + 1,
            forall|g: int|
                0 <= g <= self.generation() ==> {
                    &&& (#[trigger] files@[g]).0.generation() == g
                    &&& files@[g].0.directory() == self.directory()
                    &&& files@[g].1.generation() == g
                    &&& files@[g].1.directory() == self.directory()
                },
    {
        let mut files: Vec<(DataFile, IndexFile)> = Vec::new();
        let mut gen: DataGen = 0;
        loop
            invariant_except_break
                files@.len() == gen,
                forall|g: int|
                    0 <= g < gen ==> {
                        &&& (#[trigger] files@[g]).0.generation() == g
                        &&& files@[g].0.directory() == self.directory()
                        &&& files@[g].1.generation() == g
                        &&& files@[g].1.directory() == self.directory()
                    },
            invariant
                0 <= gen <= self.data_gen,
                self.data_gen == self.generation(),
                self.dir_name@ == self.directory(),
            ensures
                gen == self.data_gen,
                files@.len() == gen + 1,
                forall|g: int|
                    0 <= g <= gen ==> {
                        &&& (#[trigger] files@[g]).0.generation() == g
                        &&& files@[g].0.directory() == self.directory()
                        &&& files@[g].1.generation() == g
                        &&& files@[g].1.directory() == self.directory()
                    },
            decreases self.data_gen - gen,
        {
            files.push(
                (
                    DataFile::of(self.dir_name.as_str(), gen),
                    IndexFile::of(gen, self.dir_name.as_str()),
                ),
            );
            if gen >= self.data_gen {
                break;
            }
            gen = gen + 1;
        }
        files
    }

    /// Ends a full reset. Where the files were removed, the generation is 0
    /// again; where they were not, the table stays as it is.
    pub fn finish_clear<E>(&mut self, removed: Result<(), E>) -> (r: Result<(), E>)
        requires
            old(self).wf(),
        ensures
            r == removed,
            final(self).wf(),
            final(self).directory() == old(self).directory(),
            final(self).kept_files() == old(self).kept_files(),
            final(self).flushing_entries() == old(self).flushing_entries(),
            removed is Ok ==> final(self).generation() == 0,
            removed is Err ==> final(self).generation() == old(self).generation(),
    {
        if removed.is_ok() {
            self.data_gen = 0;
        }
        removed
    }
}

/// The greatest of some numbers is the greatest of the same numbers in any
/// other order.
pub proof fn lemma_latest_of_same_numbers(list: Seq<DataGen>, other: Seq<DataGen>, latest: DataGen)
    requires
        list.to_multiset() == other.to_multiset(),
        is_latest(list, latest),
    ensures
        is_latest(other, latest),
{
    list.to_multiset_ensures();
    other.to_multiset_ensures();
    if list.len() > 0 {
        assert(list.to_multiset().count(latest) > 0);
        assert forall|i: int| 0 <= i < other.len() implies other[i] <= latest by {
            assert(other.contains(other[i]));
            assert(other.to_multiset().count(other[i]) > 0);
            assert(list.contains(other[i]));
            let j = choose|j: int| 0 <= j < list.len() && list[j] == other[i];
            assert(list[j] <= latest);
        }
    }
}

/// No text writes a negative generation.
pub proof fn lemma_generations_not_negative(digits: Seq<Option<Seq<char>>>)
    ensures
        forall|i: int|
            0 <= i < digit_generations(digits).len() ==> digit_generations(digits)[i] >= 0,
    decreases digits.len(),
{
    if digits.len() > 0 {
        lemma_generations_not_negative(digits.drop_last());
        let rest = digit_generations(digits.drop_last());
        assert forall|i: int| 0 <= i < digit_generations(digits).len() implies digit_generations(
            digits,
        )[i] >= 0 by {
            if i < rest.len() {
                assert(digit_generations(digits)[i] == rest[i]);
            }
        }
    }
}

} // verus!
