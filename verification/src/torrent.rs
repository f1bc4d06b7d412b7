use vstd::prelude::*;
use vstd::string::StringExecFns;
use crate::bencode;
use crate::bencode::grammar::decode;
use crate::bencode::model::{Bencode, dict_get};
use crate::bencode::value::{Dict, Value, values_view};
use crate::errors::Error;
use crate::wire::{dict_of, integer_of, key, list_of, text_of};

verus! {

/// A file of a torrent.
#[derive(Debug)]
pub struct TorFile {
    pub name: String,
    pub length: i64,
}

/// What the metadata of a torrent says: its name, its length, its files.
#[derive(Debug)]
pub struct Torrent {
    pub name: String,
    pub length: i64,
    pub files: Vec<TorFile>,
}

/// What a file of a torrent is: its path and its length.
pub struct FileRecord {
    pub name: Seq<char>,
    pub length: int,
}

/// What a torrent is: its name, its length and its files.
pub struct TorrentRecord {
    pub name: Seq<char>,
    pub length: int,
    pub files: Seq<FileRecord>,
}

impl View for TorFile {
    type V = FileRecord;

    open spec fn view(&self) -> FileRecord {
        FileRecord { name: self.name@, length: self.length as int }
    }
}

/// What a sequence of files is, file by file.
pub open spec fn files_view(files: Seq<TorFile>) -> Seq<FileRecord> {
    Seq::new(files.len(), |i: int| files[i]@)
}

impl View for Torrent {
    type V = TorrentRecord;

    open spec fn view(&self) -> TorrentRecord {
        TorrentRecord {
            name: self.name@,
            length: self.length as int,
            files: files_view(self.files@),
        }
    }
}

/// The texts of `items`, or the error of the first item that is no text.
pub open spec fn segments(items: Seq<Bencode>) -> Result<Seq<Seq<char>>, Error>
    decreases items.len(),
{
    if items.len() == 0 {
        Ok(Seq::empty())
    } else {
        match segments(items.drop_last()) {
            Err(e) => Err(e),
            Ok(texts) => match text_of(items.last()) {
                Err(e) => Err(e),
                Ok(t) => Ok(texts.push(t)),
            },
        }
    }
}

/// `texts` one after the other, with `sep` between them.
pub open spec fn joined(texts: Seq<Seq<char>>, sep: Seq<char>) -> Seq<char>
    decreases texts.len(),
{
    if texts.len() == 0 {
        Seq::empty()
    } else if texts.len() == 1 {
        texts[0]
    } else {
        joined(texts.drop_last(), sep) + sep + texts.last()
    }
}

/// The path that a list of segments spells, with `sep` between the
/// segments.
pub open spec fn path_of(v: Bencode, sep: Seq<char>) -> Result<Seq<char>, Error> {
    match list_of(v) {
        Err(e) => Err(e),
        Ok(items) => match segments(items) {
            Err(e) => Err(e),
            Ok(texts) => Ok(joined(texts, sep)),
        },
    }
}

/// The length under the key `length`, or 0 where the key is absent.
pub open spec fn length_of(entries: Seq<(Seq<u8>, Bencode)>) -> Result<int, Error> {
    match dict_get(entries, key("length")) {
        Some(x) => integer_of(x),
        None => Ok(0),
    }
}

/// The file that a dictionary describes: its path under `path.utf-8`, else
/// under `path`, else empty; its length under `length`, else 0.
pub open spec fn file_of(v: Bencode, sep: Seq<char>) -> Result<FileRecord, Error> {
    match dict_of(v) {
        Err(e) => Err(e),
        Ok(entries) => {
            let name = match dict_get(entries, key("path.utf-8")) {
                Some(x) => path_of(x, sep),
                None => match dict_get(entries, key("path")) {
                    Some(x) => path_of(x, sep),
                    None => Ok(Seq::empty()),
                },
            };
            match name {
                Err(e) => Err(e),
                Ok(name) => match length_of(entries) {
                    Err(e) => Err(e),
                    Ok(length) => Ok(FileRecord { name, length }),
                },
            }
        },
    }
}

/// The files that `items` describe, or the error of the first item that
/// describes none.
pub open spec fn files_of(items: Seq<Bencode>, sep: Seq<char>) -> Result<Seq<FileRecord>, Error>
    decreases items.len(),
{
    if items.len() == 0 {
        Ok(Seq::empty())
    } else {
        match files_of(items.drop_last(), sep) {
            Err(e) => Err(e),
            Ok(files) => match file_of(items.last(), sep) {
                Err(e) => Err(e),
                Ok(f) => Ok(files.push(f)),
            },
        }
    }
}

/// The sum of the lengths of `files`.
pub open spec fn total_length(files: Seq<FileRecord>) -> int
    decreases files.len(),
{
    if files.len() == 0 {
        0
    } else {
        total_length(files.drop_last()) + files.last().length
    }
}

/// The name under `name.utf-8`, else under `name`, else empty.
pub open spec fn name_of(entries: Seq<(Seq<u8>, Bencode)>) -> Result<Seq<char>, Error> {
    match dict_get(entries, key("name.utf-8")) {
        Some(x) => text_of(x),
        None => match dict_get(entries, key("name")) {
            Some(x) => text_of(x),
            None => Ok(Seq::empty()),
        },
    }
}

/// The files under the key `files`, or none where the key is absent.
pub open spec fn listed_files(entries: Seq<(Seq<u8>, Bencode)>, sep: Seq<char>) -> Result<
    Seq<FileRecord>,
    Error,
> {
    match dict_get(entries, key("files")) {
        Some(x) => match list_of(x) {
            Err(e) => Err(e),
            Ok(items) => files_of(items, sep),
        },
        None => Ok(Seq::empty()),
    }
}

/// The torrent that an info dictionary describes. Its length is the one
/// under `length` where that key is present, else the sum of the lengths of
/// its files, which is `LengthOverflow` where it does not fit in 64 bits.
pub open spec fn torrent_of_value(m: Bencode, sep: Seq<char>) -> Result<TorrentRecord, Error> {
    match dict_of(m) {
        Err(e) => Err(e),
        Ok(entries) => match name_of(entries) {
            Err(e) => Err(e),
            Ok(name) => match length_of(entries) {
                Err(e) => Err(e),
                Ok(stated) => match listed_files(entries, sep) {
                    Err(e) => Err(e),
                    Ok(files) => if dict_get(entries, key("length")) is Some {
                        Ok(TorrentRecord { name, length: stated, files })
                    } else if i64::MIN <= total_length(files) <= i64::MAX {
                        Ok(TorrentRecord { name, length: total_length(files), files })
                    } else {
                        Err(Error::LengthOverflow)
                    },
                },
            },
        },
    }
}

/// The torrent that the bencoded info dictionary `meta` describes.
pub open spec fn torrent_of(meta: Seq<u8>, sep: Seq<char>) -> Result<TorrentRecord, Error> {
    match decode(meta) {
        Err(e) => Err(Error::Bencode(e)),
        Ok(m) => torrent_of_value(m, sep),
    }
}

/// The separator of path components on this platform, from
/// `std::path::MAIN_SEPARATOR_STR`. Nothing is said of it: it differs from
/// one platform to another.
#[verifier::external_body]
fn path_separator() -> &'static str {
    std::path::MAIN_SEPARATOR_STR
}

/// The text of a byte string, as owned text.
fn text(value: &Value) -> (r: Result<String, Error>)
    ensures
        match text_of(value@) {
            Ok(t) => r matches Ok(s) && s@ == t,
            Err(e) => r matches Err(x) && x == e,
        },
{
    match value.string() {
        Ok(s) => Ok(String::from_str(s)),
        Err(e) => Err(Error::Bencode(e)),
    }
}

/// The number of an integer.
fn number(value: &Value) -> (r: Result<i64, Error>)
    ensures
        match integer_of(value@) {
            Ok(n) => r == Ok::<i64, Error>(n as i64) && n == n as i64,
            Err(e) => r == Err::<i64, Error>(e),
        },
{
    match value.integer() {
        Ok(n) => Ok(n),
        Err(e) => Err(Error::Bencode(e)),
    }
}

/// The length under the key `length`, or 0 where the key is absent.
fn stated_length(dict: &Dict) -> (r: Result<i64, Error>)
    ensures
        match length_of(dict@) {
            Ok(n) => r == Ok::<i64, Error>(n as i64) && n == n as i64,
            Err(e) => r == Err::<i64, Error>(e),
        },
{
    match dict.get("length".as_bytes()) {
        Some(x) => number(x),
        None => Ok(0),
    }
}

/// The path that a list of segments spells, with `sep` between the
/// segments. An error where `value` is no list, or a segment no text.
pub fn extract_path(value: &Value, sep: &str) -> (r: Result<String, Error>)
    ensures
        match path_of(value@, sep@) {
            Ok(path) => r matches Ok(s) && s@ == path,
            Err(e) => r matches Err(x) && x == e,
        },
{
    let array = match value.list() {
        Ok(array) => array,
        Err(e) => {
            return Err(Error::Bencode(e));
        },
    };
    let ghost items = values_view(array@);
    let ghost mut texts: Seq<Seq<char>> = Seq::empty();
    let mut out = String::new();
    let mut i: usize = 0;
    proof {
        assert(items.take(0) =~= Seq::<Bencode>::empty());
    }
    while i < array.len()
        invariant
            i <= array.len(),
            items == values_view(array@),
            value@ == Bencode::List(items),
            segments(items.take(i as int)) == Ok::<Seq<Seq<char>>, Error>(texts),
            texts.len() == i,
            out@ == joined(texts, sep@),
        decreases array.len() - i,
    {
        proof {
            assert(items.take(i + 1).drop_last() =~= items.take(i as int));
            assert(items.take(i + 1).last() == array@[i as int]@);
        }
        let s = match array[i].string() {
            Ok(s) => s,
            Err(e) => {
                proof {
                    lemma_segments_fail(items, i + 1);
                }
                return Err(Error::Bencode(e));
            },
        };
        if i > 0 {
            out.append(sep);
        }
        out.append(s);
        proof {
            let next = texts.push(s@);
            assert(next.drop_last() =~= texts);
            assert(out@ =~= joined(next, sep@));
            texts = next;
        }
        i += 1;
    }
    proof {
        assert(items.take(i as int) =~= items);
    }
    Ok(out)
}

/// Where the first `n` items hold one that is no text, all the items do,
/// and the error is the same.
proof fn lemma_segments_fail(items: Seq<Bencode>, n: int)
    requires
        0 <= n <= items.len(),
        segments(items.take(n)) is Err,
    ensures
        segments(items) == segments(items.take(n)),
    decreases items.len() - n,
{
    if n < items.len() {
        assert(items.take(n + 1).drop_last() =~= items.take(n));
        lemma_segments_fail(items, n + 1);
    } else {
        assert(items.take(n) =~= items);
    }
}

/// The same for the files of a torrent.
proof fn lemma_files_fail(items: Seq<Bencode>, sep: Seq<char>, n: int)
    requires
        0 <= n <= items.len(),
        files_of(items.take(n), sep) is Err,
    ensures
        files_of(items, sep) == files_of(items.take(n), sep),
    decreases items.len() - n,
{
    if n < items.len() {
        assert(items.take(n + 1).drop_last() =~= items.take(n));
        lemma_files_fail(items, sep, n + 1);
    } else {
        assert(items.take(n) =~= items);
    }
}

/// The file that a dictionary describes: its path under `path.utf-8`, else
/// under `path`, else empty; its length under `length`, else 0.
pub fn extract_files(value: &Value, sep: &str) -> (r: Result<TorFile, Error>)
    ensures
        match file_of(value@, sep@) {
            Ok(f) => r matches Ok(x) && x@ == f,
            Err(e) => r matches Err(x) && x == e,
        },
{
    let dict = match value.dict() {
        Ok(dict) => dict,
        Err(e) => {
            return Err(Error::Bencode(e));
        },
    };
    let found = match dict.get("path.utf-8".as_bytes()) {
        Some(x) => extract_path(x, sep),
        None => match dict.get("path".as_bytes()) {
            Some(x) => extract_path(x, sep),
            None => Ok(String::new()),
        },
    };
    let name = match found {
        Ok(name) => name,
        Err(e) => {
            return Err(e);
        },
    };
    let length = match stated_length(dict) {
        Ok(length) => length,
        Err(e) => {
            return Err(e);
        },
    };
    Ok(TorFile { name, length })
}

/// The files that a list describes, and the sum of their lengths.
fn extract_all_files(list: &Vec<Value>, sep: &str) -> (r: Result<(Vec<TorFile>, i128), Error>)
    ensures
        match files_of(values_view(list@), sep@) {
            Ok(files) => r matches Ok((v, total)) && files_view(v@) == files && total
                == total_length(files),
            Err(e) => r matches Err(x) && x == e,
        },
{
    let ghost items = values_view(list@);
    let mut files: Vec<TorFile> = Vec::new();
    let mut total: i128 = 0;
    let mut i: usize = 0;
    proof {
        assert(items.take(0) =~= Seq::<Bencode>::empty());
        assert(files_view(files@) =~= Seq::<FileRecord>::empty());
    }
    while i < list.len()
        invariant
            i <= list.len(),
            items == values_view(list@),
            files_of(items.take(i as int), sep@) == Ok::<Seq<FileRecord>, Error>(
                files_view(files@),
            ),
            files@.len() == i,
            total == total_length(files_view(files@)),
            -0x8000_0000_0000_0000 * i <= total <= 0x8000_0000_0000_0000 * i,
        decreases list.len() - i,
    {
        proof {
            assert(items.take(i + 1).drop_last() =~= items.take(i as int));
            assert(items.take(i + 1).last() == list@[i as int]@);
        }
        let tf = match extract_files(&list[i], sep) {
            Ok(tf) => tf,
            Err(e) => {
                proof {
                    lemma_files_fail(items, sep@, i + 1);
                }
                return Err(e);
            },
        };
        let ghost before = files_view(files@);
        total = total + tf.length as i128;
        files.push(tf);
        proof {
            let after = files_view(files@);
            assert(after.drop_last() =~= before);
            assert(after =~= before.push(tf@));
        }
        i += 1;
    }
    proof {
        assert(items.take(i as int) =~= items);
    }
    Ok((files, total))
}

/// The torrent that the decoded info dictionary `m` describes, with `sep`
/// between the segments of the paths of its files.
pub fn from_value(m: &Value, sep: &str) -> (r: Result<Torrent, Error>)
    ensures
        match torrent_of_value(m@, sep@) {
            Ok(t) => r matches Ok(x) && x@ == t,
            Err(e) => r matches Err(x) && x == e,
        },
{
    let dict = match m.dict() {
        Ok(dict) => dict,
        Err(e) => {
            return Err(Error::Bencode(e));
        },
    };
    let found = match dict.get("name.utf-8".as_bytes()) {
        Some(s) => text(s),
        None => match dict.get("name".as_bytes()) {
            Some(s) => text(s),
            None => Ok(String::new()),
        },
    };
    let name = match found {
        Ok(name) => name,
        Err(e) => {
            return Err(e);
        },
    };
    let stated = match stated_length(dict) {
        Ok(stated) => stated,
        Err(e) => {
            return Err(e);
        },
    };
    let (files, total) = match dict.get("files".as_bytes()) {
        Some(x) => match x.list() {
            Ok(list) => match extract_all_files(list, sep) {
                Ok(found) => found,
                Err(e) => {
                    return Err(e);
                },
            },
            Err(e) => {
                return Err(Error::Bencode(e));
            },
        },
        None => {
            proof {
                assert(files_view(Seq::<TorFile>::empty()) =~= Seq::<FileRecord>::empty());
            }
            (Vec::new(), 0i128)
        },
    };
    let length: i64 = if dict.get("length".as_bytes()).is_some() {
        stated
    } else if -0x8000_0000_0000_0000 <= total && total <= 0x7fff_ffff_ffff_ffff {
        total as i64
    } else {
        return Err(Error::LengthOverflow);
    };
    Ok(Torrent { name, length, files })
}

/// The torrent that the bencoded info dictionary `meta` describes, with
/// `sep` between the segments of the paths of its files. An error where
/// `meta` is not bencode or a value in it is not of the kind expected;
/// `LengthOverflow` where the length has to be summed and does not fit.
pub fn from_bytes_with(meta: &[u8], sep: &str) -> (r: Result<Torrent, Error>)
    ensures
        match torrent_of(meta@, sep@) {
            Ok(t) => r matches Ok(x) && x@ == t,
            Err(e) => r matches Err(x) && x == e,
        },
{
    match bencode::from_bytes(meta) {
        Ok(m) => from_value(&m, sep),
        Err(e) => Err(Error::Bencode(e)),
    }
}

/// The torrent that the bencoded info dictionary `meta` describes, with the
/// separator of this platform between the segments of the paths of its
/// files.
pub fn from_bytes(meta: &[u8]) -> (r: Result<Torrent, Error>)
    ensures
        exists|sep: Seq<char>|
            match #[trigger] torrent_of(meta@, sep) {
                Ok(t) => r matches Ok(x) && x@ == t,
                Err(e) => r matches Err(x) && x == e,
            },
{
    let sep = path_separator();
    let r = from_bytes_with(meta, sep);
    proof {
        assert(match torrent_of(meta@, sep@) {
            Ok(t) => r matches Ok(x) && x@ == t,
            Err(e) => r matches Err(x) && x == e,
        });
    }
    r
}

} // verus!
