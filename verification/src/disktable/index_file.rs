//! The index file of a generation: for each record of the data file its
//! key and the offset at which the record begins, in the order of the
//! records.

use super::byte_utils::{
    framed, get_framed, get_u64, lemma_flatten_split, lemma_read_framed_written,
    lemma_read_u64_written, put_framed, put_signed_decimal, put_u64, read_framed, read_u64,
    signed_decimal_text,
};
use super::{DataGen, Offset};
use crate::key_order::{compare_bytes, Order};
use vstd::bytes::spec_u64_to_le_bytes;
use vstd::prelude::*;
use vstd::utf8::encode_utf8;

verus! {

/// Keys, by their bytes, each with the offset of its record.
pub type IndexSeq = Seq<(Seq<u8>, u64)>;

/// Where the record of a key begins, and in which generation.
#[derive(Clone, Copy, Debug, PartialEq, Eq, Structural)]
pub struct IndexEntry {
    pub data_gen: DataGen,
    pub offset: Offset,
}

/// One key with its offset as it stands in the file: the key behind its
/// length, then the offset.
pub open spec fn index_record(key: Seq<u8>, offset: u64) -> Seq<u8> {
    framed(key) + spec_u64_to_le_bytes(offset)
}

/// The records of an index, one for each entry.
pub open spec fn index_chunks(entries: IndexSeq) -> Seq<Seq<u8>> {
    Seq::new(entries.len(), |i: int| index_record(entries[i].0, entries[i].1))
}

/// The content of the index file that holds `entries`.
pub open spec fn index_image(entries: IndexSeq) -> Seq<u8> {
    index_chunks(entries).flatten()
}

/// The offset with the first key equal to `key` among the records that
/// stand in `bytes` from `at` on; reading stops where no whole record is
/// left.
pub open spec fn index_search(bytes: Seq<u8>, at: int, key: Seq<u8>) -> Option<u64>
    decreases bytes.len() - at,
{
    match read_framed(bytes, at) {
        None => None,
        Some((k, offset_at)) => match read_u64(bytes, offset_at) {
            None => None,
            Some(offset) => if k == key {
                Some(offset)
            } else {
                index_search(bytes, offset_at + 8, key)
            },
        },
    }
}

/// The offset with the first key equal to `key` among `entries` from `i`
/// on.
pub open spec fn first_offset(entries: IndexSeq, i: int, key: Seq<u8>) -> Option<u64>
    decreases entries.len() - i,
{
    if i < 0 || i >= entries.len() {
        None
    } else if entries[i].0 == key {
        Some(entries[i].1)
    } else {
        first_offset(entries, i + 1, key)
    }
}

/// The place in an index file at which the record of entry `i` begins.
pub open spec fn index_record_start(entries: IndexSeq, i: int) -> int {
    index_chunks(entries).take(i).flatten().len() as int
}

/// Searching a written index from the record of entry `i` on gives the
/// offset of the first entry from `i` on that has the key.
pub proof fn lemma_index_search_written(entries: IndexSeq, i: int, key: Seq<u8>)
    requires
        0 <= i <= entries.len(),
        forall|j: int| 0 <= j < entries.len() ==> (#[trigger] entries[j]).0.len() <= u64::MAX,
    ensures
        index_search(index_image(entries), index_record_start(entries, i), key) == first_offset(
            entries,
            i,
            key,
        ),
    decreases entries.len() - i,
{
    let chunks = index_chunks(entries);
    let image = index_image(entries);
    let at = index_record_start(entries, i);
    if i == entries.len() {
        assert(chunks.take(i) =~= chunks);
    } else {
        let before = chunks.take(i).flatten();
        let behind = chunks.skip(i + 1).flatten();
        let k = entries[i].0;
        let offset = entries[i].1;
        lemma_flatten_split(chunks, i);
        assert(chunks[i] == framed(k) + spec_u64_to_le_bytes(offset));
        assert(image =~= before + framed(k) + (spec_u64_to_le_bytes(offset) + behind));
        lemma_read_framed_written(before, k, spec_u64_to_le_bytes(offset) + behind);
        assert(image =~= (before + framed(k)) + spec_u64_to_le_bytes(offset) + behind);
        lemma_read_u64_written(before + framed(k), offset, behind);
        assert(index_record_start(entries, i + 1) == at + 8 + k.len() + 8);
        lemma_index_search_written(entries, i + 1, key);
    }
}

/// The entries as exec code holds them, each key by its bytes.
pub open spec fn index_view(entries: Seq<(String, Offset)>) -> IndexSeq {
    Seq::new(entries.len(), |i: int| (encode_utf8(entries[i].0@), entries[i].1))
}

/// The name of the index file of generation `data_gen`: the prefix, an
/// underscore, and the generation in decimal.
pub open spec fn index_file_name(data_gen: DataGen) -> Seq<char> {
    IndexFile::FILE_NAME_PREFIX@ + "_"@ + signed_decimal_text(data_gen as int)
}

/// The index file of one generation.
pub struct IndexFile {
    dir_name: String,
    data_gen: DataGen,
}

impl IndexFile {
    /// What the name of every index file begins with.
    pub const FILE_NAME_PREFIX: &'static str = "index";

    /// The generation whose index this is.
    pub closed spec fn generation(&self) -> DataGen {
        self.data_gen
    }

    /// The directory that holds the file.
    pub closed spec fn directory(&self) -> Seq<char> {
        self.dir_name@
    }

    /// The index file of generation `data_gen` in `dir_name`.
    pub fn of(data_gen: DataGen, dir_name: &str) -> (r: IndexFile)
        ensures
            r.generation() == data_gen,
            r.directory() == dir_name@,
    {
        IndexFile { dir_name: dir_name.to_owned(), data_gen }
    }

    /// The generation whose index this is.
    pub fn data_gen(&self) -> (r: DataGen)
        ensures
            r == self.generation(),
    {
        self.data_gen
    }

    /// The directory that holds the file.
    pub fn dir_name(&self) -> (r: &str)
        ensures
            r@ == self.directory(),
    {
        self.dir_name.as_str()
    }

    /// The name of the file in its directory.
    pub fn file_name(&self) -> (r: String)
        ensures
            r@ == index_file_name(self.generation()),
    {
        let mut name = String::from_str(Self::FILE_NAME_PREFIX);
        name.append("_");
        put_signed_decimal(&mut name, self.data_gen);
        name
    }

    /// The content of the index file that holds `entries`, in their order.
    pub fn create_index(&self, entries: &Vec<(String, Offset)>) -> (content: Vec<u8>)
        ensures
            content@ == index_image(index_view(entries@)),
    {
        let ghost chunks = index_chunks(index_view(entries@));
        let mut content: Vec<u8> = Vec::new();
        let mut i: usize = 0;
        proof {
            assert(chunks.take(0) =~= Seq::<Seq<u8>>::empty());
        }
        while i < entries.len()
            invariant
                i <= entries.len(),
                chunks == index_chunks(index_view(entries@)),
                content@ == chunks.take(i as int).flatten(),
            decreases entries.len() - i,
        {
            let ghost before = content@;
            put_framed(&mut content, entries[i].0.as_str().as_bytes());
            put_u64(&mut content, entries[i].1);
            proof {
                assert(content@ =~= before + chunks[i as int]);
                assert(chunks.take(i + 1) =~= chunks.take(i as int).push(chunks[i as int]));
                chunks.take(i as int).lemma_flatten_push(chunks[i as int]);
            }
            i = i + 1;
        }
        proof {
            assert(chunks.take(i as int) =~= chunks);
        }
        content
    }

    /// Where the record of `key` begins, as `content` says: the offset that
    /// stands with the first key equal to `key`. The records differ in
    /// length, so they are gone through from the first on.
    pub fn find_index(&self, content: &[u8], key: &str) -> (r: Option<IndexEntry>)
        ensures
            r == match index_search(content@, 0, encode_utf8(key@)) {
                Some(offset) => Some(IndexEntry { data_gen: self.generation(), offset }),
                None => None,
            },
    {
        let wanted = key.as_bytes();
        let len = content.len();
        let mut at: usize = 0;
        loop
            invariant
                wanted@ == encode_utf8(key@),
                len == content@.len(),
                index_search(content@, at as int, wanted@) == index_search(content@, 0, wanted@),
            decreases content@.len() - at,
        {
            match get_framed(content, at) {
                None => {
                    return None;
                },
                Some((k, offset_at)) => match get_u64(content, offset_at) {
                    None => {
                        return None;
                    },
                    Some(offset) => {
                        match compare_bytes(k, wanted) {
                            Order::Same => {
                                return Some(IndexEntry { data_gen: self.data_gen, offset });
                            },
                            _ => {
                                at = offset_at + 8;
                            },
                        }
                    },
                },
            }
        }
    }
}

} // verus!
