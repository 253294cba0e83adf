//! The typed description of a torrent, and the projection of a decoded
//! metainfo dictionary onto it.

use crate::value::{
    entries_view, find, items_view, lemma_dictionary_view, lemma_list_view, lookup, Node, Value,
};
use vstd::prelude::*;
use vstd::string::StringSliceAdditionalSpecFns;
use vstd::utf8::{decode_utf8, encode_utf8_decode_utf8, valid_utf8};

verus! {

/// The number of bytes in the hash of one piece.
pub const HASH_LENGTH: usize = 20;

/// A place in a metainfo dictionary.
#[derive(Debug, Clone, Copy, PartialEq, Eq, Structural)]
pub enum Field {
    /// The metainfo dictionary itself.
    Root,
    /// `announce`, in the root.
    Announce,
    /// `info`, in the root.
    Info,
    /// `name`, in `info`.
    Name,
    /// `piece length`, in `info`.
    PieceLength,
    /// `pieces`, in `info`.
    Pieces,
    /// `length`, in `info` or in an entry of `files`.
    Length,
    /// `files`, in `info`, and each of its entries.
    Files,
    /// `path`, in an entry of `files`, and each of its segments.
    Path,
}

/// The kind of a Bencode value.
#[derive(Debug, Clone, Copy, PartialEq, Eq, Structural)]
pub enum Kind {
    Integer,
    ByteString,
    List,
    Dictionary,
}

/// Why a value is no description of a torrent.
#[derive(Debug, Clone, Copy, PartialEq, Eq, Structural)]
pub enum ProjectionError {
    /// A dictionary lacks a key that it must have.
    MissingField(Field),
    /// A value is of another kind than the one given here.
    WrongType(Field, Kind),
    /// A byte string that must be text is not valid UTF-8.
    InvalidEncoding(Field),
    /// An integer that must be a size is negative or too large, or a piece
    /// length is zero.
    InvalidField(Field),
    /// The hashes are not a whole number of 20-byte pieces; the length
    /// found is given.
    MalformedHashes(usize),
    /// `info` holds both `length` and `files`, or neither.
    AmbiguousLayout,
}

impl Field {
    /// The dictionary key under which the field is stored. `Root` is stored
    /// under no key, and stands for the empty one.
    pub open spec fn key(self) -> Seq<u8> {
        match self {
            Field::Root => "".spec_bytes(),
            Field::Announce => "announce".spec_bytes(),
            Field::Info => "info".spec_bytes(),
            Field::Name => "name".spec_bytes(),
            Field::PieceLength => "piece length".spec_bytes(),
            Field::Pieces => "pieces".spec_bytes(),
            Field::Length => "length".spec_bytes(),
            Field::Files => "files".spec_bytes(),
            Field::Path => "path".spec_bytes(),
        }
    }

    /// The dictionary key under which the field is stored.
    pub fn key_bytes(self) -> (key: &'static [u8])
        ensures
            key@ == self.key(),
    {
        match self {
            Field::Root => "".as_bytes(),
            Field::Announce => "announce".as_bytes(),
            Field::Info => "info".as_bytes(),
            Field::Name => "name".as_bytes(),
            Field::PieceLength => "piece length".as_bytes(),
            Field::Pieces => "pieces".as_bytes(),
            Field::Length => "length".as_bytes(),
            Field::Files => "files".as_bytes(),
            Field::Path => "path".as_bytes(),
        }
    }
}

/// The hashes that `bytes` holds one after the other, 20 bytes each.
pub open spec fn hashes_of(bytes: Seq<u8>) -> Seq<Seq<u8>> {
    Seq::new(
        bytes.len() / HASH_LENGTH as nat,
        |i: int| bytes.subrange(HASH_LENGTH * i, HASH_LENGTH * i + HASH_LENGTH),
    )
}

/// The byte sequences that `hashes` holds, in order.
pub open spec fn hashes_view(hashes: Seq<[u8; 20]>) -> Seq<Seq<u8>> {
    Seq::new(hashes.len(), |i: int| hashes[i]@)
}

/// Splits the concatenated hashes into one hash per piece, in order. A
/// length that is no multiple of 20 is refused, and reported.
pub fn split_hashes(bytes: &[u8]) -> (result: Result<Vec<[u8; 20]>, ProjectionError>)
    ensures
        bytes.len() % HASH_LENGTH != 0 ==> result == Err::<Vec<[u8; 20]>, ProjectionError>(
            ProjectionError::MalformedHashes(bytes.len()),
        ),
        bytes.len() % HASH_LENGTH == 0 ==> result is Ok && hashes_view(result->Ok_0@)
            == hashes_of(bytes@),
        result is Ok ==> result->Ok_0.len() == bytes.len() / HASH_LENGTH && forall|
            i: int,
            j: int,
        |
            0 <= i < result->Ok_0.len() && 0 <= j < HASH_LENGTH ==> result->Ok_0[i][j]
                == bytes[HASH_LENGTH * i + j],
{
    if bytes.len() % HASH_LENGTH != 0 {
        return Err(ProjectionError::MalformedHashes(bytes.len()));
    }
    let count: usize = bytes.len() / HASH_LENGTH;
    let mut hashes: Vec<[u8; 20]> = Vec::new();
    let mut i: usize = 0;
    while i < count
        invariant
            i <= count,
            count == bytes.len() / HASH_LENGTH,
            bytes.len() % HASH_LENGTH == 0,
            hashes.len() == i,
            forall|k: int, j: int|
                0 <= k < i && 0 <= j < HASH_LENGTH ==> hashes[k][j] == bytes[HASH_LENGTH * k + j],
        decreases count - i,
    {
        let mut hash: [u8; 20] = [0u8; 20];
        let mut j: usize = 0;
        while j < HASH_LENGTH
            invariant
                j <= HASH_LENGTH,
                i < count,
                count == bytes.len() / HASH_LENGTH,
                forall|m: int| 0 <= m < j ==> hash[m] == bytes[HASH_LENGTH * i + m],
            decreases HASH_LENGTH - j,
        {
            hash[j] = bytes[HASH_LENGTH * i + j];
            j += 1;
        }
        hashes.push(hash);
        i += 1;
    }
    proof {
        assert(hashes_view(hashes@) =~= hashes_of(bytes@)) by {
            assert forall|k: int| 0 <= k < hashes.len() implies hashes_view(hashes@)[k]
                == hashes_of(bytes@)[k] by {
                assert(hashes@[k]@ =~= bytes@.subrange(
                    HASH_LENGTH * k,
                    HASH_LENGTH * k + HASH_LENGTH,
                ));
            }
        }
    }
    Ok(hashes)
}

/// One file of a torrent that holds several.
#[derive(Debug, Clone, PartialEq, Eq)]
pub struct File {
    /// The size of the file in bytes.
    pub length: usize,
    /// The segments of the file's path, outermost directory first.
    pub path: Vec<String>,
}

/// How the content of a torrent is laid out in files.
#[derive(Debug, Clone, PartialEq, Eq)]
pub enum Layout {
    /// One file of the given size, named by the torrent's name.
    SingleFile { length: usize },
    /// Several files, in order, below a directory named by the torrent's name.
    MultiFile { files: Vec<File> },
}

/// The `info` dictionary of a torrent.
#[derive(Debug, Clone, PartialEq, Eq)]
pub struct Info {
    /// The name that is suggested for the file or directory.
    pub name: String,
    /// The number of bytes in each piece; positive.
    pub piece_length: usize,
    /// The hash of each piece, by piece index.
    pub pieces: Vec<[u8; 20]>,
    /// The file or files that the pieces make up.
    pub layout: Layout,
}

/// The description of a torrent.
#[derive(Debug, Clone, PartialEq, Eq)]
pub struct Torrent {
    /// The URL of the tracker.
    pub announce: String,
    pub info: Info,
}

/// The model of a `File`.
pub ghost struct FileModel {
    pub length: nat,
    pub path: Seq<Seq<char>>,
}

/// The model of a `Layout`.
pub ghost enum LayoutModel {
    SingleFile { length: nat },
    MultiFile { files: Seq<FileModel> },
}

/// The model of an `Info`.
pub ghost struct InfoModel {
    pub name: Seq<char>,
    pub piece_length: nat,
    pub pieces: Seq<Seq<u8>>,
    pub layout: LayoutModel,
}

/// The model of a `Torrent`.
pub ghost struct TorrentModel {
    pub announce: Seq<char>,
    pub info: InfoModel,
}

/// The character sequences of `texts`, in order.
pub open spec fn texts_view(texts: Seq<String>) -> Seq<Seq<char>> {
    Seq::new(texts.len(), |i: int| texts[i]@)
}

/// The models of `files`, in order.
pub open spec fn files_view(files: Seq<File>) -> Seq<FileModel> {
    Seq::new(files.len(), |i: int| files[i]@)
}

impl View for File {
    type V = FileModel;

    open spec fn view(&self) -> FileModel {
        FileModel { length: self.length as nat, path: texts_view(self.path@) }
    }
}

impl View for Layout {
    type V = LayoutModel;

    open spec fn view(&self) -> LayoutModel {
        match self {
            Layout::SingleFile { length } => LayoutModel::SingleFile { length: *length as nat },
            Layout::MultiFile { files } => LayoutModel::MultiFile { files: files_view(files@) },
        }
    }
}

impl View for Info {
    type V = InfoModel;

    open spec fn view(&self) -> InfoModel {
        InfoModel {
            name: self.name@,
            piece_length: self.piece_length as nat,
            pieces: hashes_view(self.pieces@),
            layout: self.layout@,
        }
    }
}

impl View for Torrent {
    type V = TorrentModel;

    open spec fn view(&self) -> TorrentModel {
        TorrentModel { announce: self.announce@, info: self.info@ }
    }
}

/// The value that a dictionary must hold under the key of `field`.
pub open spec fn required(entries: Seq<(Seq<u8>, Node)>, field: Field) -> Result<
    Node,
    ProjectionError,
> {
    match lookup(entries, field.key()) {
        Some(node) => Ok(node),
        None => Err(ProjectionError::MissingField(field)),
    }
}

/// The text that `node` holds: it must be a byte string, and valid UTF-8.
pub open spec fn text_of(node: Node, field: Field) -> Result<Seq<char>, ProjectionError> {
    match node {
        Node::Bytes(bytes) => if valid_utf8(bytes) {
            Ok(decode_utf8(bytes))
        } else {
            Err(ProjectionError::InvalidEncoding(field))
        },
        _ => Err(ProjectionError::WrongType(field, Kind::ByteString)),
    }
}

/// The size that `node` holds: it must be an integer, at least `least`,
/// that fits in `usize`.
pub open spec fn size_of(node: Node, field: Field, least: nat) -> Result<nat, ProjectionError> {
    match node {
        Node::Integer(n) => if least <= n <= usize::MAX {
            Ok(n as nat)
        } else {
            Err(ProjectionError::InvalidField(field))
        },
        _ => Err(ProjectionError::WrongType(field, Kind::Integer)),
    }
}

/// The piece hashes that `node` holds: it must be a byte string whose
/// length is a multiple of 20.
pub open spec fn pieces_of(node: Node) -> Result<Seq<Seq<u8>>, ProjectionError> {
    match node {
        Node::Bytes(bytes) => if bytes.len() % HASH_LENGTH as nat == 0 {
            Ok(hashes_of(bytes))
        } else {
            Err(ProjectionError::MalformedHashes(bytes.len() as usize))
        },
        _ => Err(ProjectionError::WrongType(Field::Pieces, Kind::ByteString)),
    }
}

/// What was found so far, followed by what the rest gives.
pub open spec fn prepend<T>(done: Seq<T>, rest: Result<Seq<T>, ProjectionError>) -> Result<
    Seq<T>,
    ProjectionError,
> {
    match rest {
        Ok(more) => Ok(done + more),
        Err(error) => Err(error),
    }
}

/// The path segments from index `from` on, each of which must be text. The
/// first that is not decides the error.
pub open spec fn path_from(segments: Seq<Node>, from: int) -> Result<
    Seq<Seq<char>>,
    ProjectionError,
>
    decreases segments.len() - from,
{
    if from < 0 || from >= segments.len() {
        Ok(Seq::empty())
    } else {
        match text_of(segments[from], Field::Path) {
            Err(error) => Err(error),
            Ok(text) => prepend(seq![text], path_from(segments, from + 1)),
        }
    }
}

/// The path that `node` holds: it must be a list of texts.
pub open spec fn path_of(node: Node) -> Result<Seq<Seq<char>>, ProjectionError> {
    match node {
        Node::List(segments) => path_from(segments, 0),
        _ => Err(ProjectionError::WrongType(Field::Path, Kind::List)),
    }
}

/// The file that `node` describes: it must be a dictionary with a `length`
/// and a `path`, which are looked at in that order.
pub open spec fn file_of(node: Node) -> Result<FileModel, ProjectionError> {
    match node {
        Node::Dictionary(entries) => match required(entries, Field::Length) {
            Err(error) => Err(error),
            Ok(length_node) => match size_of(length_node, Field::Length, 0) {
                Err(error) => Err(error),
                Ok(length) => match required(entries, Field::Path) {
                    Err(error) => Err(error),
                    Ok(path_node) => match path_of(path_node) {
                        Err(error) => Err(error),
                        Ok(path) => Ok(FileModel { length, path }),
                    },
                },
            },
        },
        _ => Err(ProjectionError::WrongType(Field::Files, Kind::Dictionary)),
    }
}

/// The files from index `from` on. The first that is no file decides the
/// error.
pub open spec fn files_from(items: Seq<Node>, from: int) -> Result<
    Seq<FileModel>,
    ProjectionError,
>
    decreases items.len() - from,
{
    if from < 0 || from >= items.len() {
        Ok(Seq::empty())
    } else {
        match file_of(items[from]) {
            Err(error) => Err(error),
            Ok(file) => prepend(seq![file], files_from(items, from + 1)),
        }
    }
}

/// `info` holds exactly one of `length` and `files`.
pub open spec fn layout_is_clear(info: Seq<(Seq<u8>, Node)>) -> bool {
    lookup(info, Field::Length.key()) is Some != lookup(info, Field::Files.key()) is Some
}

/// The layout that the entries of `info` give: a single file where only
/// `length` is there, several files where only `files` is there, and an
/// error where both are or neither is.
pub open spec fn layout_of(info: Seq<(Seq<u8>, Node)>) -> Result<LayoutModel, ProjectionError> {
    if !layout_is_clear(info) {
        Err(ProjectionError::AmbiguousLayout)
    } else if lookup(info, Field::Length.key()) is Some {
        match size_of(lookup(info, Field::Length.key())->0, Field::Length, 0) {
            Err(error) => Err(error),
            Ok(length) => Ok(LayoutModel::SingleFile { length }),
        }
    } else {
        match lookup(info, Field::Files.key())->0 {
            Node::List(items) => match files_from(items, 0) {
                Err(error) => Err(error),
                Ok(files) => Ok(LayoutModel::MultiFile { files }),
            },
            _ => Err(ProjectionError::WrongType(Field::Files, Kind::List)),
        }
    }
}

/// The `info` that its entries give. `name`, `piece length`, `pieces` and
/// the layout are looked at in that order, and the first at fault decides
/// the error.
pub open spec fn info_of(info: Seq<(Seq<u8>, Node)>) -> Result<InfoModel, ProjectionError> {
    match required(info, Field::Name) {
        Err(error) => Err(error),
        Ok(name_node) => match text_of(name_node, Field::Name) {
            Err(error) => Err(error),
            Ok(name) => match required(info, Field::PieceLength) {
                Err(error) => Err(error),
                Ok(size_node) => match size_of(size_node, Field::PieceLength, 1) {
                    Err(error) => Err(error),
                    Ok(piece_length) => match required(info, Field::Pieces) {
                        Err(error) => Err(error),
                        Ok(pieces_node) => match pieces_of(pieces_node) {
                            Err(error) => Err(error),
                            Ok(pieces) => match layout_of(info) {
                                Err(error) => Err(error),
                                Ok(layout) => Ok(InfoModel { name, piece_length, pieces, layout }),
                            },
                        },
                    },
                },
            },
        },
    }
}

/// The `info` dictionary of a metainfo dictionary: it must be there, be a
/// dictionary, and hold exactly one of `length` and `files`.
pub open spec fn info_entries_of(root: Seq<(Seq<u8>, Node)>) -> Result<
    Seq<(Seq<u8>, Node)>,
    ProjectionError,
> {
    match required(root, Field::Info) {
        Err(error) => Err(error),
        Ok(Node::Dictionary(info)) => if layout_is_clear(info) {
            Ok(info)
        } else {
            Err(ProjectionError::AmbiguousLayout)
        },
        Ok(_) => Err(ProjectionError::WrongType(Field::Info, Kind::Dictionary)),
    }
}

/// The torrent that `node` describes, or what keeps it from describing
/// one. The root must be a dictionary; then `info` is found and its layout
/// must be clear; then `announce` is read, and then the fields of `info`.
/// The first step at fault decides the error.
pub open spec fn projection(node: Node) -> Result<TorrentModel, ProjectionError> {
    match node {
        Node::Dictionary(root) => match info_entries_of(root) {
            Err(error) => Err(error),
            Ok(info_entries) => match required(root, Field::Announce) {
                Err(error) => Err(error),
                Ok(announce_node) => match text_of(announce_node, Field::Announce) {
                    Err(error) => Err(error),
                    Ok(announce) => match info_of(info_entries) {
                        Err(error) => Err(error),
                        Ok(info) => Ok(TorrentModel { announce, info }),
                    },
                },
            },
        },
        _ => Err(ProjectionError::WrongType(Field::Root, Kind::Dictionary)),
    }
}

/// `result` is what `model` says: the same error, or a value with that
/// model.
pub open spec fn reflects<T: View>(
    result: Result<T, ProjectionError>,
    model: Result<T::V, ProjectionError>,
) -> bool {
    match result {
        Ok(value) => model == Ok::<T::V, ProjectionError>(value@),
        Err(error) => model == Err::<T::V, ProjectionError>(error),
    }
}

/// `std::str::from_utf8`, which checks that a slice of bytes is valid UTF-8
/// and then hands it back as a string slice. The contract says that it
/// succeeds on valid UTF-8 and on nothing else, and that the string slice is
/// made of the bytes given.
#[verifier::external_body]
fn str_from_utf8<'a>(bytes: &'a [u8]) -> (result: Option<&'a str>)
    ensures
        result is Some <==> valid_utf8(bytes@),
        result is Some ==> result->Some_0.spec_bytes() == bytes@,
{
    match std::str::from_utf8(bytes) {
        Ok(text) => Some(text),
        Err(_) => None,
    }
}

fn require<'a>(entries: &'a Vec<(Vec<u8>, Value)>, field: Field) -> (result: Result<
    &'a Value,
    ProjectionError,
>)
    ensures
        match result {
            Ok(value) => required(entries_view(entries@), field) == Ok::<Node, ProjectionError>(
                value@,
            ),
            Err(error) => required(entries_view(entries@), field) == Err::<
                Node,
                ProjectionError,
            >(error),
        },
{
    match find(entries, field.key_bytes()) {
        Some(value) => Ok(value),
        None => Err(ProjectionError::MissingField(field)),
    }
}

fn text(value: &Value, field: Field) -> (result: Result<String, ProjectionError>)
    ensures
        match result {
            Ok(found) => text_of(value@, field) == Ok::<Seq<char>, ProjectionError>(found@),
            Err(error) => text_of(value@, field) == Err::<Seq<char>, ProjectionError>(error),
        },
{
    match value {
        Value::ByteString(data) => match str_from_utf8(data.as_slice()) {
            Some(found) => {
                proof {
                    encode_utf8_decode_utf8(found@);
                }
                Ok(found.to_owned())
            },
            None => Err(ProjectionError::InvalidEncoding(field)),
        },
        _ => Err(ProjectionError::WrongType(field, Kind::ByteString)),
    }
}

fn size(value: &Value, field: Field, least: usize) -> (result: Result<usize, ProjectionError>)
    ensures
        match result {
            Ok(found) => size_of(value@, field, least as nat) == Ok::<nat, ProjectionError>(
                found as nat,
            ),
            Err(error) => size_of(value@, field, least as nat) == Err::<nat, ProjectionError>(
                error,
            ),
        },
{
    match value {
        Value::Integer(n) => {
            let n: i64 = *n;
            if n < 0 || (n as u64) < least as u64 || n as u64 > usize::MAX as u64 {
                Err(ProjectionError::InvalidField(field))
            } else {
                Ok(n as usize)
            }
        },
        _ => Err(ProjectionError::WrongType(field, Kind::Integer)),
    }
}

fn pieces(value: &Value) -> (result: Result<Vec<[u8; 20]>, ProjectionError>)
    ensures
        match result {
            Ok(found) => pieces_of(value@) == Ok::<Seq<Seq<u8>>, ProjectionError>(
                hashes_view(found@),
            ),
            Err(error) => pieces_of(value@) == Err::<Seq<Seq<u8>>, ProjectionError>(error),
        },
{
    match value {
        Value::ByteString(data) => split_hashes(data.as_slice()),
        _ => Err(ProjectionError::WrongType(Field::Pieces, Kind::ByteString)),
    }
}

fn path(value: &Value) -> (result: Result<Vec<String>, ProjectionError>)
    ensures
        match result {
            Ok(found) => path_of(value@) == Ok::<Seq<Seq<char>>, ProjectionError>(
                texts_view(found@),
            ),
            Err(error) => path_of(value@) == Err::<Seq<Seq<char>>, ProjectionError>(error),
        },
{
    match value {
        Value::List(items) => {
            let ghost nodes = items_view(items@);
            proof {
                lemma_list_view(*items);
            }
            let mut found: Vec<String> = Vec::new();
            let mut i: usize = 0;
            proof {
                assert(texts_view(found@) =~= Seq::<Seq<char>>::empty());
                assert(prepend(texts_view(found@), path_from(nodes, 0)) == path_from(nodes, 0)) by {
                    match path_from(nodes, 0) {
                        Ok(more) => {
                            assert(texts_view(found@) + more =~= more);
                        },
                        Err(_) => {},
                    }
                }
            }
            while i < items.len()
                invariant
                    i <= items.len(),
                    nodes == items_view(items@),
                    value@ == Node::List(nodes),
                    path_from(nodes, 0) == prepend(texts_view(found@), path_from(nodes, i as int)),
                decreases items.len() - i,
            {
                proof {
                    assert(nodes[i as int] == items@[i as int]@);
                }
                match text(&items[i], Field::Path) {
                    Err(error) => {
                        return Err(error);
                    },
                    Ok(segment) => {
                        proof {
                            let done = texts_view(found@);
                            assert(nodes[i as int] == items@[i as int]@);
                            assert(texts_view(found@.push(segment)) =~= done.push(segment@));
                            match path_from(nodes, i + 1) {
                                Ok(more) => {
                                    assert(done + (seq![segment@] + more) =~= done.push(segment@)
                                        + more);
                                },
                                Err(_) => {},
                            }
                        }
                        found.push(segment);
                        i += 1;
                    },
                }
            }
            proof {
                assert(texts_view(found@) + Seq::<Seq<char>>::empty() =~= texts_view(found@));
            }
            Ok(found)
        },
        _ => Err(ProjectionError::WrongType(Field::Path, Kind::List)),
    }
}

fn file(value: &Value) -> (result: Result<File, ProjectionError>)
    ensures
        reflects(result, file_of(value@)),
{
    match value {
        Value::Dictionary(entries) => {
            proof {
                lemma_dictionary_view(*entries);
            }
            let length_value = match require(entries, Field::Length) {
                Err(error) => {
                    return Err(error);
                },
                Ok(found) => found,
            };
            let length = match size(length_value, Field::Length, 0) {
                Err(error) => {
                    return Err(error);
                },
                Ok(found) => found,
            };
            let path_value = match require(entries, Field::Path) {
                Err(error) => {
                    return Err(error);
                },
                Ok(found) => found,
            };
            match path(path_value) {
                Err(error) => Err(error),
                Ok(segments) => Ok(File { length, path: segments }),
            }
        },
        _ => Err(ProjectionError::WrongType(Field::Files, Kind::Dictionary)),
    }
}

fn files(items: &Vec<Value>) -> (result: Result<Vec<File>, ProjectionError>)
    ensures
        match result {
            Ok(found) => files_from(items_view(items@), 0) == Ok::<
                Seq<FileModel>,
                ProjectionError,
            >(files_view(found@)),
            Err(error) => files_from(items_view(items@), 0) == Err::<
                Seq<FileModel>,
                ProjectionError,
            >(error),
        },
{
    let ghost nodes = items_view(items@);
    let mut found: Vec<File> = Vec::new();
    let mut i: usize = 0;
    proof {
        assert(files_view(found@) =~= Seq::<FileModel>::empty());
        assert(prepend(files_view(found@), files_from(nodes, 0)) == files_from(nodes, 0)) by {
            match files_from(nodes, 0) {
                Ok(more) => {
                    assert(files_view(found@) + more =~= more);
                },
                Err(_) => {},
            }
        }
    }
    while i < items.len()
        invariant
            i <= items.len(),
            nodes == items_view(items@),
            files_from(nodes, 0) == prepend(files_view(found@), files_from(nodes, i as int)),
        decreases items.len() - i,
    {
        proof {
            assert(nodes[i as int] == items@[i as int]@);
        }
        match file(&items[i]) {
            Err(error) => {
                return Err(error);
            },
            Ok(entry) => {
                proof {
                    let done = files_view(found@);
                    assert(nodes[i as int] == items@[i as int]@);
                    assert(files_view(found@.push(entry)) =~= done.push(entry@));
                    match files_from(nodes, i + 1) {
                        Ok(more) => {
                            assert(done + (seq![entry@] + more) =~= done.push(entry@) + more);
                        },
                        Err(_) => {},
                    }
                }
                found.push(entry);
                i += 1;
            },
        }
    }
    proof {
        assert(files_view(found@) + Seq::<FileModel>::empty() =~= files_view(found@));
    }
    Ok(found)
}

/// Decides the layout from the entries of an `info` dictionary: a single
/// file where only `length` is there, several files where only `files` is
/// there. Where both are there, or neither, the layout is ambiguous.
pub fn project_layout(info: &Vec<(Vec<u8>, Value)>) -> (result: Result<Layout, ProjectionError>)
    ensures
        reflects(result, layout_of(entries_view(info@))),
        !layout_is_clear(entries_view(info@)) ==> result == Err::<Layout, ProjectionError>(
            ProjectionError::AmbiguousLayout,
        ),
{
    let length_value = find(info, Field::Length.key_bytes());
    let files_value = find(info, Field::Files.key_bytes());
    match (length_value, files_value) {
        (Some(found), None) => match size(found, Field::Length, 0) {
            Err(error) => Err(error),
            Ok(length) => Ok(Layout::SingleFile { length }),
        },
        (None, Some(found)) => match found {
            Value::List(items) => {
                proof {
                    lemma_list_view(*items);
                }
                match files(items) {
                    Err(error) => Err(error),
                    Ok(entries) => Ok(Layout::MultiFile { files: entries }),
                }
            },
            _ => Err(ProjectionError::WrongType(Field::Files, Kind::List)),
        },
        _ => Err(ProjectionError::AmbiguousLayout),
    }
}

fn project_info(info: &Vec<(Vec<u8>, Value)>) -> (result: Result<Info, ProjectionError>)
    ensures
        reflects(result, info_of(entries_view(info@))),
{
    let name_value = match require(info, Field::Name) {
        Err(error) => {
            return Err(error);
        },
        Ok(found) => found,
    };
    let name = match text(name_value, Field::Name) {
        Err(error) => {
            return Err(error);
        },
        Ok(found) => found,
    };
    let size_value = match require(info, Field::PieceLength) {
        Err(error) => {
            return Err(error);
        },
        Ok(found) => found,
    };
    let piece_length = match size(size_value, Field::PieceLength, 1) {
        Err(error) => {
            return Err(error);
        },
        Ok(found) => found,
    };
    let pieces_value = match require(info, Field::Pieces) {
        Err(error) => {
            return Err(error);
        },
        Ok(found) => found,
    };
    let hashes = match pieces(pieces_value) {
        Err(error) => {
            return Err(error);
        },
        Ok(found) => found,
    };
    match project_layout(info) {
        Err(error) => Err(error),
        Ok(layout) => Ok(Info { name, piece_length, pieces: hashes, layout }),
    }
}

/// Projects a decoded metainfo dictionary onto the description of a
/// torrent. Every field is checked, so what is returned is complete and
/// valid; the first step at fault decides the error.
pub fn project(value: &Value) -> (result: Result<Torrent, ProjectionError>)
    ensures
        reflects(result, projection(value@)),
        result is Ok ==> result->Ok_0.info.piece_length > 0,
{
    let root = match value {
        Value::Dictionary(entries) => entries,
        _ => {
            return Err(ProjectionError::WrongType(Field::Root, Kind::Dictionary));
        },
    };
    proof {
        lemma_dictionary_view(*root);
    }
    let info = match require(root, Field::Info) {
        Err(error) => {
            return Err(error);
        },
        Ok(Value::Dictionary(entries)) => entries,
        Ok(_) => {
            return Err(ProjectionError::WrongType(Field::Info, Kind::Dictionary));
        },
    };
    proof {
        lemma_dictionary_view(*info);
    }
    let with_length = find(info, Field::Length.key_bytes()).is_some();
    let with_files = find(info, Field::Files.key_bytes()).is_some();
    if with_length == with_files {
        return Err(ProjectionError::AmbiguousLayout);
    }
    let announce_value = match require(root, Field::Announce) {
        Err(error) => {
            return Err(error);
        },
        Ok(found) => found,
    };
    let announce = match text(announce_value, Field::Announce) {
        Err(error) => {
            return Err(error);
        },
        Ok(found) => found,
    };
    match project_info(info) {
        Err(error) => Err(error),
        Ok(found) => Ok(Torrent { announce, info: found }),
    }
}

/// A metainfo dictionary whose `info` holds both `length` and `files`, or
/// neither, is refused as ambiguous, whatever else it holds.
pub proof fn law_ambiguous_layout(root: Seq<(Seq<u8>, Node)>, info: Seq<(Seq<u8>, Node)>)
    requires
        lookup(root, Field::Info.key()) == Some(Node::Dictionary(info)),
        lookup(info, Field::Length.key()) is Some == lookup(info, Field::Files.key()) is Some,
    ensures
        projection(Node::Dictionary(root)) == Err::<TorrentModel, ProjectionError>(
            ProjectionError::AmbiguousLayout,
        ),
{
}

/// Hashes of `20 * k` bytes in all are `k` hashes, the hash of piece `i`
/// being the 20 bytes from offset `20 * i` on; any other length is refused
/// and reported.
pub proof fn law_pieces(bytes: Seq<u8>)
    requires
        bytes.len() <= usize::MAX,
    ensures
        bytes.len() % 20 == 0 ==> pieces_of(Node::Bytes(bytes)) is Ok && pieces_of(
            Node::Bytes(bytes),
        )->Ok_0.len() == bytes.len() / 20 && forall|i: int|
            0 <= i < bytes.len() / 20 ==> #[trigger] pieces_of(Node::Bytes(bytes))->Ok_0[i]
                == bytes.subrange(20 * i, 20 * i + 20),
        bytes.len() % 20 != 0 ==> pieces_of(Node::Bytes(bytes)) == Err::<
            Seq<Seq<u8>>,
            ProjectionError,
        >(ProjectionError::MalformedHashes(bytes.len() as usize)),
{
}

} // verus!
