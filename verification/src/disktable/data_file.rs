//! The data file of a generation: one record for each entry of a frozen
//! buffer, tombstones included, in key order.

use super::byte_utils::{
    framed, get_framed, get_text, lemma_flatten_split, lemma_read_framed_written, put_framed,
    put_signed_decimal, read_framed, signed_decimal_text, text_of,
};
use super::index_file::{index_view, IndexSeq};
use super::{DataGen, Offset};
use crate::memtable::{EntrySeq, MemtableEntries};
use vstd::prelude::*;
use vstd::utf8::encode_utf8;

verus! {

/// The byte behind the key of a record that holds a value.
pub const FLAG_VALUE: u8 = 0;

/// The byte behind the key of a record that marks its key as deleted.
pub const FLAG_TOMBSTONE: u8 = 1;

/// One record as it is read from a data file: the key, and its value or
/// `None` where the record is a tombstone.
#[derive(Debug, PartialEq, Eq)]
pub struct DataEntry {
    pub key: String,
    pub value: Option<String>,
}

impl View for DataEntry {
    type V = (Seq<char>, Option<Seq<char>>);

    open spec fn view(&self) -> (Seq<char>, Option<Seq<char>>) {
        (
            self.key@,
            match self.value {
                Some(v) => Some(v@),
                None => None,
            },
        )
    }
}

/// One record as it stands in the file: the key behind its length, then
/// `FLAG_TOMBSTONE`, or `FLAG_VALUE` and the value behind its length.
pub open spec fn record_image(key: Seq<u8>, value: Option<Seq<u8>>) -> Seq<u8> {
    framed(key) + match value {
        Some(v) => seq![FLAG_VALUE] + framed(v),
        None => seq![FLAG_TOMBSTONE],
    }
}

/// The record that stands at `at`: its key, its value where it holds one,
/// and the place behind it. `None` where no whole record stands there.
pub open spec fn read_record(bytes: Seq<u8>, at: int) -> Option<(Seq<u8>, Option<Seq<u8>>, int)> {
    match read_framed(bytes, at) {
        None => None,
        Some((key, flag_at)) => if flag_at >= bytes.len() {
            None
        } else if bytes[flag_at] == FLAG_TOMBSTONE {
            Some((key, None, flag_at + 1))
        } else if bytes[flag_at] == FLAG_VALUE {
            match read_framed(bytes, flag_at + 1) {
                Some((value, end)) => Some((key, Some(value), end)),
                None => None,
            }
        } else {
            None
        },
    }
}

/// The record at `at` as text: `None` where no whole record stands there
/// or its key or value is not UTF-8.
pub open spec fn read_entry_text(bytes: Seq<u8>, at: int) -> Option<
    (Seq<char>, Option<Seq<char>>),
> {
    match read_record(bytes, at) {
        None => None,
        Some((key, value, _)) => match (text_of(key), value) {
            (None, _) => None,
            (Some(k), None) => Some((k, None)),
            (Some(k), Some(v)) => match text_of(v) {
                Some(t) => Some((k, Some(t))),
                None => None,
            },
        },
    }
}

/// The bytes of a value, where there is one.
pub open spec fn value_image(value: Option<String>) -> Option<Seq<u8>> {
    match value {
        Some(v) => Some(encode_utf8(v@)),
        None => None,
    }
}

/// The records of a data file, one for each entry.
pub open spec fn data_chunks(entries: EntrySeq<String>) -> Seq<Seq<u8>> {
    Seq::new(entries.len(), |i: int| record_image(entries[i].0, value_image(entries[i].1)))
}

/// The content of the data file that holds `entries`.
pub open spec fn data_image(entries: EntrySeq<String>) -> Seq<u8> {
    data_chunks(entries).flatten()
}

/// The offset at which the record of entry `i` begins.
pub open spec fn record_start(entries: EntrySeq<String>, i: int) -> int {
    data_chunks(entries).take(i).flatten().len() as int
}

/// For each entry its key and the offset of its record.
pub open spec fn index_entries(entries: EntrySeq<String>) -> IndexSeq {
    Seq::new(entries.len(), |i: int| (entries[i].0, record_start(entries, i) as u64))
}

/// A record written behind `prefix` is read back there, and the reading
/// ends where the record ends.
pub proof fn lemma_read_record_written(
    prefix: Seq<u8>,
    key: Seq<u8>,
    value: Option<Seq<u8>>,
    rest: Seq<u8>,
)
    requires
        key.len() <= u64::MAX,
        value matches Some(v) ==> v.len() <= u64::MAX,
    ensures
        read_record(prefix + record_image(key, value) + rest, prefix.len() as int) == Some(
            (key, value, (prefix.len() + record_image(key, value).len()) as int),
        ),
{
    let all = prefix + record_image(key, value) + rest;
    let flag_at = prefix.len() as int + 8 + key.len();
    match value {
        Some(v) => {
            let tail = seq![FLAG_VALUE] + framed(v) + rest;
            assert(all =~= prefix + framed(key) + tail);
            lemma_read_framed_written(prefix, key, tail);
            assert(all[flag_at] == FLAG_VALUE);
            let head = prefix + framed(key) + seq![FLAG_VALUE];
            assert(all =~= head + framed(v) + rest);
            lemma_read_framed_written(head, v, rest);
        },
        None => {
            let tail = seq![FLAG_TOMBSTONE] + rest;
            assert(all =~= prefix + framed(key) + tail);
            lemma_read_framed_written(prefix, key, tail);
            assert(all[flag_at] == FLAG_TOMBSTONE);
        },
    }
}

/// No key and no value of `entries` is longer than a length can say, and
/// the data file that holds them is no longer than an offset can say.
pub open spec fn fits(entries: EntrySeq<String>) -> bool {
    &&& data_image(entries).len() <= u64::MAX
    &&& forall|i: int|
        0 <= i < entries.len() ==> {
            &&& (#[trigger] entries[i]).0.len() <= u64::MAX
            &&& entries[i].1 matches Some(v) ==> encode_utf8(v@).len() <= u64::MAX
        }
}

/// In a written data file the record of entry `i` stands at its offset,
/// and ends where the next begins.
pub proof fn lemma_record_at_start(entries: EntrySeq<String>, i: int)
    requires
        0 <= i < entries.len(),
        fits(entries),
    ensures
        read_record(data_image(entries), record_start(entries, i)) == Some(
            (entries[i].0, value_image(entries[i].1), record_start(entries, i + 1)),
        ),
        0 <= record_start(entries, i) <= data_image(entries).len(),
{
    let chunks = data_chunks(entries);
    lemma_flatten_split(chunks, i);
    assert(entries[i].0.len() <= u64::MAX);
    lemma_read_record_written(
        chunks.take(i).flatten(),
        entries[i].0,
        value_image(entries[i].1),
        chunks.skip(i + 1).flatten(),
    );
}

/// The records of a written data file stand in key order: of two entries
/// the one with the smaller key has the smaller offset.
pub proof fn law_records_in_key_order(entries: EntrySeq<String>, i: int, j: int)
    requires
        crate::memtable::sorted(entries),
        0 <= i < j < entries.len(),
    ensures
        crate::key_order::precedes(index_entries(entries)[i].0, index_entries(entries)[j].0),
        record_start(entries, i) < record_start(entries, j),
    decreases j - i,
{
    let chunks = data_chunks(entries);
    lemma_flatten_split(chunks, j - 1);
    vstd::bytes::lemma_auto_spec_u64_to_from_le_bytes();
    assert(chunks[j - 1].len() > 0);
    if i < j - 1 {
        law_records_in_key_order(entries, i, j - 1);
    }
}

/// The name of the data file of generation `data_gen`: the prefix, an
/// underscore, and the generation in decimal.
pub open spec fn data_file_name(data_gen: DataGen) -> Seq<char> {
    DataFile::FILE_NAME_PREFIX@ + "_"@ + signed_decimal_text(data_gen as int)
}

/// The data file of one generation.
pub struct DataFile {
    dir_name: String,
    data_gen: DataGen,
}

impl DataFile {
    /// What the name of every data file begins with.
    pub const FILE_NAME_PREFIX: &'static str = "data";

    /// The generation whose data this is.
    pub closed spec fn generation(&self) -> DataGen {
        self.data_gen
    }

    /// The directory that holds the file.
    pub closed spec fn directory(&self) -> Seq<char> {
        self.dir_name@
    }

    /// The data file of generation `data_gen` in `dir_name`.
    pub fn of(dir_name: &str, data_gen: DataGen) -> (r: DataFile)
        ensures
            r.generation() == data_gen,
            r.directory() == dir_name@,
    {
        DataFile { dir_name: dir_name.to_owned(), data_gen }
    }

    /// The generation whose data this is.
    pub fn data_gen(&self) -> (r: DataGen)
        ensures
            r == self.generation(),
    {
        self.data_gen
    }

    /// The directory that holds the file.
    pub fn dir_name(&self) -> (r: &str)
        ensures
            r@ == self.directory(),
    {
        self.dir_name.as_str()
    }

    /// The name of the file in its directory.
    pub fn file_name(&self) -> (r: String)
        ensures
            r@ == data_file_name(self.generation()),
    {
        let mut name = String::from_str(Self::FILE_NAME_PREFIX);
        name.append("_");
        put_signed_decimal(&mut name, self.data_gen);
        name
    }

    /// The content of the data file that holds `entries`, one record for
    /// each in their order, and for each record its key and the offset at
    /// which it begins.
    pub fn create(&self, entries: &MemtableEntries<String, String>) -> (r: (
        Vec<u8>,
        Vec<(String, Offset)>,
    ))
        ensures
            r.0@ == data_image(entries@),
            index_view(r.1@) == index_entries(entries@),
            fits(entries@),
    {
        let ghost chunks = data_chunks(entries@);
        let mut content: Vec<u8> = Vec::new();
        let mut index: Vec<(String, Offset)> = Vec::new();
        let mut i: usize = 0;
        proof {
            assert(chunks.take(0) =~= Seq::<Seq<u8>>::empty());
        }
        while i < entries.len()
            invariant
                i <= entries@.len(),
                chunks == data_chunks(entries@),
                content@ == chunks.take(i as int).flatten(),
                index@.len() == i,
                index_view(index@) == index_entries(entries@).take(i as int),
                forall|j: int|
                    0 <= j < i ==> {
                        &&& (#[trigger] entries@[j]).0.len() <= u64::MAX
                        &&& entries@[j].1 matches Some(v) ==> encode_utf8(v@).len() <= u64::MAX
                    },
            decreases entries@.len() - i,
        {
            let ghost before = content@;
            let ghost index_before = index@;
            let key = entries.key_at(i);
            let offset = content.len() as u64;
            index.push((key.clone(), offset));
            let key_bytes = key.as_str().as_bytes();
            assert(key_bytes.len() <= u64::MAX);
            put_framed(&mut content, key_bytes);
            match entries.value_at(i) {
                Some(value) => {
                    let value_bytes = value.as_str().as_bytes();
                    assert(value_bytes.len() <= u64::MAX);
                    content.push(FLAG_VALUE);
                    put_framed(&mut content, value_bytes);
                },
                None => {
                    content.push(FLAG_TOMBSTONE);
                },
            }
            proof {
                assert(content@ =~= before + chunks[i as int]);
                assert(chunks.take(i + 1) =~= chunks.take(i as int).push(chunks[i as int]));
                chunks.take(i as int).lemma_flatten_push(chunks[i as int]);
                let now = index_view(index@);
                let was = index_view(index_before);
                let goal = index_entries(entries@).take(i + 1);
                assert(index@ =~= index_before.push(index@[i as int]));
                assert forall|j: int| 0 <= j < i + 1 implies now[j] == goal[j] by {
                    if j < i {
                        assert(now[j] == was[j]);
                        assert(was[j] == index_entries(entries@).take(i as int)[j]);
                    }
                }
                assert(now =~= goal);
            }
            i = i + 1;
        }
        proof {
            assert(chunks.take(i as int) =~= chunks);
            assert(index_entries(entries@).take(i as int) =~= index_entries(entries@));
            assert(content.len() <= u64::MAX);
        }
        (content, index)
    }

    /// The record that begins at `offset` in `content`, tombstones
    /// included; `None` where no whole record of text begins there.
    pub fn read_entry(&self, content: &[u8], offset: Offset) -> (r: Option<DataEntry>)
        ensures
            match r {
                Some(entry) => read_entry_text(content@, offset as int) == Some(entry@),
                None => read_entry_text(content@, offset as int) is None,
            },
    {
        if offset > content.len() as u64 {
            return None;
        }
        let at = offset as usize;
        let (key_bytes, flag_at) = match get_framed(content, at) {
            Some(found) => found,
            None => {
                return None;
            },
        };
        if flag_at >= content.len() {
            return None;
        }
        let key = match get_text(key_bytes) {
            Some(key) => key,
            None => {
                return None;
            },
        };
        let flag = content[flag_at];
        if flag == FLAG_TOMBSTONE {
            Some(DataEntry { key, value: None })
        } else if flag == FLAG_VALUE {
            match get_framed(content, flag_at + 1) {
                Some((value_bytes, _)) => match get_text(value_bytes) {
                    Some(value) => Some(DataEntry { key, value: Some(value) }),
                    None => None,
                },
                None => None,
            }
        } else {
            None
        }
    }
}

} // verus!
