use bencode_metainfo::decode::decode;
use bencode_metainfo::metainfo::{
    project, project_layout, split_hashes, Field, File, Info, Kind, Layout, ProjectionError,
    Torrent, HASH_LENGTH,
};
use bencode_metainfo::value::Value;

fn text(value: &str) -> Value {
    Value::ByteString(value.as_bytes().to_vec())
}

fn entry(key: &str, value: Value) -> (Vec<u8>, Value) {
    (key.as_bytes().to_vec(), value)
}

fn hashes(count: usize) -> Vec<u8> {
    (0..count * 20).map(|i| (i % 256) as u8).collect()
}

fn single_file_info(pieces: Vec<u8>) -> Vec<(Vec<u8>, Value)> {
    vec![
        entry("length", Value::Integer(92063)),
        entry("name", text("sample.txt")),
        entry("piece length", Value::Integer(32768)),
        entry("pieces", Value::ByteString(pieces)),
    ]
}

fn metainfo(info: Vec<(Vec<u8>, Value)>) -> Value {
    Value::Dictionary(vec![
        entry("announce", text("http://tracker.example/announce")),
        entry("info", Value::Dictionary(info)),
    ])
}

fn replace(entries: &mut Vec<(Vec<u8>, Value)>, key: &str, value: Value) {
    for slot in entries.iter_mut() {
        if slot.0 == key.as_bytes() {
            slot.1 = value;
            return;
        }
    }
    panic!("no such key");
}

fn without(entries: Vec<(Vec<u8>, Value)>, key: &str) -> Vec<(Vec<u8>, Value)> {
    entries.into_iter().filter(|slot| slot.0 != key.as_bytes()).collect()
}

#[test]
fn single_file_torrent_with_two_pieces() {
    let pieces = hashes(2);
    let torrent = project(&metainfo(single_file_info(pieces.clone()))).expect("a torrent");
    assert_eq!(torrent.announce, "http://tracker.example/announce");
    assert_eq!(torrent.info.name, "sample.txt");
    assert_eq!(torrent.info.piece_length, 32768);
    assert_eq!(torrent.info.pieces.len(), 2);
    assert_eq!(torrent.info.pieces[0].to_vec(), pieces[..20].to_vec());
    assert_eq!(torrent.info.pieces[1].to_vec(), pieces[20..].to_vec());
    assert_eq!(torrent.info.layout, Layout::SingleFile { length: 92063 });
}

#[test]
fn single_file_torrent_from_its_bytes() {
    let mut input = b"d8:announce31:http://tracker.example/announce4:infod6:lengthi92063e4:name10:sample.txt12:piece lengthi32768e6:pieces40:".to_vec();
    input.extend(hashes(2));
    input.extend_from_slice(b"ee");
    let (value, consumed) = decode(&input).expect("well-formed metainfo");
    assert_eq!(consumed, input.len());
    let expected = Torrent {
        announce: "http://tracker.example/announce".to_string(),
        info: Info {
            name: "sample.txt".to_string(),
            piece_length: 32768,
            pieces: vec![
                [0, 1, 2, 3, 4, 5, 6, 7, 8, 9, 10, 11, 12, 13, 14, 15, 16, 17, 18, 19],
                [20, 21, 22, 23, 24, 25, 26, 27, 28, 29, 30, 31, 32, 33, 34, 35, 36, 37, 38, 39],
            ],
            layout: Layout::SingleFile { length: 92063 },
        },
    };
    assert_eq!(project(&value), Ok(expected));
}

#[test]
fn multi_file_torrent_keeps_files_and_segments_in_order() {
    let files = Value::List(vec![
        Value::Dictionary(vec![
            entry("length", Value::Integer(10)),
            entry("path", Value::List(vec![text("docs"), text("readme.txt")])),
        ]),
        Value::Dictionary(vec![
            entry("length", Value::Integer(0)),
            entry("path", Value::List(vec![text("empty")])),
        ]),
    ]);
    let info = vec![
        entry("files", files),
        entry("name", text("bundle")),
        entry("piece length", Value::Integer(16384)),
        entry("pieces", Value::ByteString(hashes(1))),
    ];
    let torrent = project(&metainfo(info)).expect("a torrent");
    assert_eq!(torrent.info.name, "bundle");
    assert_eq!(torrent.info.pieces.len(), 1);
    assert_eq!(
        torrent.info.layout,
        Layout::MultiFile {
            files: vec![
                File { length: 10, path: vec!["docs".to_string(), "readme.txt".to_string()] },
                File { length: 0, path: vec!["empty".to_string()] },
            ]
        }
    );
}

#[test]
fn torrent_without_pieces_or_files() {
    let info = vec![
        entry("files", Value::List(vec![])),
        entry("name", text("")),
        entry("piece length", Value::Integer(1)),
        entry("pieces", Value::ByteString(vec![])),
    ];
    let torrent = project(&metainfo(info)).expect("a torrent");
    assert_eq!(torrent.info.pieces.len(), 0);
    assert_eq!(torrent.info.layout, Layout::MultiFile { files: vec![] });
}

#[test]
fn text_outside_ascii_is_decoded_as_utf8() {
    let mut info = single_file_info(hashes(1));
    replace(&mut info, "name", text("naïve – 名前.txt"));
    let torrent = project(&metainfo(info)).expect("a torrent");
    assert_eq!(torrent.info.name, "naïve – 名前.txt");
    assert_eq!(torrent.info.name.chars().count(), 14);
}

#[test]
fn keys_that_are_not_asked_for_are_passed_over() {
    let mut info = single_file_info(hashes(1));
    info.push(entry("private", Value::Integer(1)));
    let root = Value::Dictionary(vec![
        entry("announce", text("udp://tracker.example")),
        entry("comment", text("extra")),
        entry("info", Value::Dictionary(info)),
    ]);
    let torrent = project(&root).expect("a torrent");
    assert_eq!(torrent.announce, "udp://tracker.example");
}

#[test]
fn hashes_are_split_every_twenty_bytes() {
    assert_eq!(HASH_LENGTH, 20);
    assert_eq!(split_hashes(&[]), Ok(vec![]));
    let one = hashes(1);
    let split = split_hashes(&one).expect("one hash");
    assert_eq!(split.len(), 1);
    assert_eq!(split[0].to_vec(), one);
    let many = hashes(25);
    let split = split_hashes(&many).expect("25 hashes");
    assert_eq!(split.len(), 25);
    for (index, hash) in split.iter().enumerate() {
        assert_eq!(hash.to_vec(), many[20 * index..20 * index + 20].to_vec());
    }
}

#[test]
fn hashes_of_any_other_length_are_malformed() {
    for length in [1usize, 19, 21, 39, 41, 59, 1001] {
        let bytes = vec![7u8; length];
        assert_eq!(split_hashes(&bytes), Err(ProjectionError::MalformedHashes(length)));
    }
}

#[test]
fn malformed_hashes_stop_the_projection() {
    let mut pieces = hashes(2);
    pieces.push(0);
    assert_eq!(
        project(&metainfo(single_file_info(pieces))),
        Err(ProjectionError::MalformedHashes(41))
    );
}

#[test]
fn both_length_and_files_are_ambiguous() {
    let mut info = single_file_info(hashes(1));
    info.insert(0, entry("files", Value::List(vec![])));
    assert_eq!(project_layout(&info), Err(ProjectionError::AmbiguousLayout));
    assert_eq!(project(&metainfo(info)), Err(ProjectionError::AmbiguousLayout));
}

#[test]
fn neither_length_nor_files_is_ambiguous() {
    let info = without(single_file_info(hashes(1)), "length");
    assert_eq!(project_layout(&info), Err(ProjectionError::AmbiguousLayout));
    assert_eq!(project(&metainfo(info)), Err(ProjectionError::AmbiguousLayout));
    assert_eq!(project_layout(&vec![]), Err(ProjectionError::AmbiguousLayout));
}

#[test]
fn ambiguous_layout_is_found_before_any_other_field_is_read() {
    let root = Value::Dictionary(vec![entry("info", Value::Dictionary(vec![]))]);
    assert_eq!(project(&root), Err(ProjectionError::AmbiguousLayout));
    let root = Value::Dictionary(vec![entry(
        "info",
        Value::Dictionary(vec![
            entry("files", Value::Integer(1)),
            entry("length", text("x")),
        ]),
    )]);
    assert_eq!(project(&root), Err(ProjectionError::AmbiguousLayout));
}

#[test]
fn layout_alone() {
    assert_eq!(
        project_layout(&vec![entry("length", Value::Integer(5))]),
        Ok(Layout::SingleFile { length: 5 })
    );
    assert_eq!(
        project_layout(&vec![entry("files", Value::List(vec![]))]),
        Ok(Layout::MultiFile { files: vec![] })
    );
    assert_eq!(
        project_layout(&vec![entry("length", text("5"))]),
        Err(ProjectionError::WrongType(Field::Length, Kind::Integer))
    );
    assert_eq!(
        project_layout(&vec![entry("length", Value::Integer(-1))]),
        Err(ProjectionError::InvalidField(Field::Length))
    );
    assert_eq!(
        project_layout(&vec![entry("files", Value::Dictionary(vec![]))]),
        Err(ProjectionError::WrongType(Field::Files, Kind::List))
    );
}

#[test]
fn root_must_be_a_dictionary() {
    let wrong = Err(ProjectionError::WrongType(Field::Root, Kind::Dictionary));
    assert_eq!(project(&Value::Integer(1)), wrong);
    assert_eq!(project(&text("d")), wrong);
    assert_eq!(project(&Value::List(vec![])), wrong);
}

#[test]
fn missing_fields_are_named() {
    assert_eq!(
        project(&Value::Dictionary(vec![])),
        Err(ProjectionError::MissingField(Field::Info))
    );
    let root = Value::Dictionary(vec![entry(
        "info",
        Value::Dictionary(single_file_info(hashes(1))),
    )]);
    assert_eq!(project(&root), Err(ProjectionError::MissingField(Field::Announce)));
    for (key, field) in [
        ("name", Field::Name),
        ("piece length", Field::PieceLength),
        ("pieces", Field::Pieces),
    ] {
        let info = without(single_file_info(hashes(1)), key);
        assert_eq!(
            project(&metainfo(info)),
            Err(ProjectionError::MissingField(field))
        );
    }
}

#[test]
fn fields_of_the_wrong_kind_are_named_with_the_kind_expected() {
    let root = Value::Dictionary(vec![
        entry("announce", text("x")),
        entry("info", Value::List(vec![])),
    ]);
    assert_eq!(
        project(&root),
        Err(ProjectionError::WrongType(Field::Info, Kind::Dictionary))
    );
    let root = Value::Dictionary(vec![
        entry("announce", Value::Integer(1)),
        entry("info", Value::Dictionary(single_file_info(hashes(1)))),
    ]);
    assert_eq!(
        project(&root),
        Err(ProjectionError::WrongType(Field::Announce, Kind::ByteString))
    );
    for (key, value, field, kind) in [
        ("name", Value::Integer(1), Field::Name, Kind::ByteString),
        ("piece length", text("16384"), Field::PieceLength, Kind::Integer),
        ("pieces", Value::List(vec![]), Field::Pieces, Kind::ByteString),
        ("length", Value::List(vec![]), Field::Length, Kind::Integer),
    ] {
        let mut info = single_file_info(hashes(1));
        replace(&mut info, key, value);
        assert_eq!(
            project(&metainfo(info)),
            Err(ProjectionError::WrongType(field, kind))
        );
    }
}

#[test]
fn text_that_is_not_utf8_is_an_invalid_encoding() {
    let root = Value::Dictionary(vec![
        entry("announce", Value::ByteString(vec![0xff, 0xfe])),
        entry("info", Value::Dictionary(single_file_info(hashes(1)))),
    ]);
    assert_eq!(project(&root), Err(ProjectionError::InvalidEncoding(Field::Announce)));
    let mut info = single_file_info(hashes(1));
    replace(&mut info, "name", Value::ByteString(vec![b'a', 0xc3]));
    assert_eq!(
        project(&metainfo(info)),
        Err(ProjectionError::InvalidEncoding(Field::Name))
    );
    let mut info = single_file_info(hashes(1));
    replace(&mut info, "name", Value::ByteString(vec![0xed, 0xa0, 0x80]));
    assert_eq!(
        project(&metainfo(info)),
        Err(ProjectionError::InvalidEncoding(Field::Name))
    );
}

#[test]
fn piece_length_must_be_positive() {
    for wrong in [0i64, -1, i64::MIN] {
        let mut info = single_file_info(hashes(1));
        replace(&mut info, "piece length", Value::Integer(wrong));
        assert_eq!(
            project(&metainfo(info)),
            Err(ProjectionError::InvalidField(Field::PieceLength))
        );
    }
    let mut info = single_file_info(hashes(1));
    replace(&mut info, "piece length", Value::Integer(1));
    assert_eq!(project(&metainfo(info)).map(|t| t.info.piece_length), Ok(1));
}

#[test]
fn length_must_not_be_negative() {
    let mut info = single_file_info(hashes(1));
    replace(&mut info, "length", Value::Integer(-1));
    assert_eq!(
        project(&metainfo(info)),
        Err(ProjectionError::InvalidField(Field::Length))
    );
    let mut info = single_file_info(hashes(1));
    replace(&mut info, "length", Value::Integer(0));
    assert_eq!(
        project(&metainfo(info)).map(|t| t.info.layout),
        Ok(Layout::SingleFile { length: 0 })
    );
}

fn multi_file_info(files: Value) -> Vec<(Vec<u8>, Value)> {
    vec![
        entry("files", files),
        entry("name", text("bundle")),
        entry("piece length", Value::Integer(16384)),
        entry("pieces", Value::ByteString(hashes(1))),
    ]
}

#[test]
fn faults_in_the_files_are_named() {
    let cases = vec![
        (
            Value::List(vec![Value::Integer(1)]),
            ProjectionError::WrongType(Field::Files, Kind::Dictionary),
        ),
        (
            Value::List(vec![Value::Dictionary(vec![])]),
            ProjectionError::MissingField(Field::Length),
        ),
        (
            Value::List(vec![Value::Dictionary(vec![entry("length", Value::Integer(1))])]),
            ProjectionError::MissingField(Field::Path),
        ),
        (
            Value::List(vec![Value::Dictionary(vec![
                entry("length", Value::Integer(-5)),
                entry("path", Value::List(vec![])),
            ])]),
            ProjectionError::InvalidField(Field::Length),
        ),
        (
            Value::List(vec![Value::Dictionary(vec![
                entry("length", Value::Integer(1)),
                entry("path", text("a/b")),
            ])]),
            ProjectionError::WrongType(Field::Path, Kind::List),
        ),
        (
            Value::List(vec![Value::Dictionary(vec![
                entry("length", Value::Integer(1)),
                entry("path", Value::List(vec![text("a"), Value::Integer(2)])),
            ])]),
            ProjectionError::WrongType(Field::Path, Kind::ByteString),
        ),
        (
            Value::List(vec![Value::Dictionary(vec![
                entry("length", Value::Integer(1)),
                entry("path", Value::List(vec![Value::ByteString(vec![0x80])])),
            ])]),
            ProjectionError::InvalidEncoding(Field::Path),
        ),
        (
            Value::Integer(3),
            ProjectionError::WrongType(Field::Files, Kind::List),
        ),
    ];
    for (files, error) in cases {
        assert_eq!(project(&metainfo(multi_file_info(files))), Err(error));
    }
}

#[test]
fn the_first_file_at_fault_decides() {
    let files = Value::List(vec![
        Value::Dictionary(vec![
            entry("length", Value::Integer(1)),
            entry("path", Value::List(vec![text("ok")])),
        ]),
        Value::Dictionary(vec![entry("path", Value::List(vec![]))]),
        Value::Integer(0),
    ]);
    assert_eq!(
        project(&metainfo(multi_file_info(files))),
        Err(ProjectionError::MissingField(Field::Length))
    );
}

#[test]
fn announce_is_read_before_the_fields_of_info() {
    let info = vec![
        entry("length", Value::Integer(-1)),
        entry("name", Value::Integer(0)),
        entry("piece length", Value::Integer(0)),
        entry("pieces", Value::ByteString(vec![1])),
    ];
    let root = Value::Dictionary(vec![
        entry("announce", Value::Integer(0)),
        entry("info", Value::Dictionary(info)),
    ]);
    assert_eq!(
        project(&root),
        Err(ProjectionError::WrongType(Field::Announce, Kind::ByteString))
    );
}

#[test]
fn fields_of_info_are_read_in_their_order() {
    let mut info = vec![
        entry("length", Value::Integer(-1)),
        entry("name", Value::Integer(0)),
        entry("piece length", Value::Integer(0)),
        entry("pieces", Value::ByteString(vec![1])),
    ];
    assert_eq!(
        project(&metainfo(info.clone())),
        Err(ProjectionError::WrongType(Field::Name, Kind::ByteString))
    );
    replace(&mut info, "name", text("n"));
    assert_eq!(
        project(&metainfo(info.clone())),
        Err(ProjectionError::InvalidField(Field::PieceLength))
    );
    replace(&mut info, "piece length", Value::Integer(4));
    assert_eq!(
        project(&metainfo(info.clone())),
        Err(ProjectionError::MalformedHashes(1))
    );
    replace(&mut info, "pieces", Value::ByteString(vec![]));
    assert_eq!(
        project(&metainfo(info.clone())),
        Err(ProjectionError::InvalidField(Field::Length))
    );
    replace(&mut info, "length", Value::Integer(4));
    assert!(project(&metainfo(info)).is_ok());
}

#[test]
fn field_keys_are_the_names_on_the_wire() {
    assert_eq!(Field::Announce.key_bytes(), b"announce");
    assert_eq!(Field::Info.key_bytes(), b"info");
    assert_eq!(Field::Name.key_bytes(), b"name");
    assert_eq!(Field::PieceLength.key_bytes(), b"piece length");
    assert_eq!(Field::Pieces.key_bytes(), b"pieces");
    assert_eq!(Field::Length.key_bytes(), b"length");
    assert_eq!(Field::Files.key_bytes(), b"files");
    assert_eq!(Field::Path.key_bytes(), b"path");
    assert_eq!(Field::Root.key_bytes(), b"");
}
