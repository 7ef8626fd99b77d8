use mimetree::checker::{BaseChecker, Checker, MagicChecker, MagicEntry, MagicRule};
use mimetree::db::MimeDb;

fn fixture_db() -> MimeDb {
    let magic = MagicChecker {
        entries: vec![
            MagicEntry {
                mime: "image/gif".to_owned(),
                rules: vec![
                    MagicRule { offset: 0, value: b"GIF87a".to_vec() },
                    MagicRule { offset: 0, value: b"GIF89a".to_vec() },
                ],
            },
            MagicEntry {
                mime: "image/png".to_owned(),
                rules: vec![MagicRule { offset: 0, value: b"\x89PNG\r\n\x1a\n".to_vec() }],
            },
            MagicEntry {
                mime: "application/zip".to_owned(),
                rules: vec![MagicRule { offset: 0, value: b"PK\x03\x04".to_vec() }],
            },
        ],
        subclasses: vec![],
        aliases: vec![(
            "application/x-zip-compressed".to_owned(),
            "application/zip".to_owned(),
        )],
    };
    MimeDb::new(vec![Checker::Magic(magic), Checker::Base(BaseChecker {})])
}

#[test]
fn gif_bytes_identify_as_gif() {
    let db = fixture_db();
    let gif: &[u8] = b"GIF89a lots of pixels follow";
    assert_eq!(db.from_u8(gif), "image/gif");
    assert!(db.match_u8("image/gif", gif));
    assert!(!db.match_u8("application/zip", gif));
}

#[test]
fn empty_bytes_identify_as_octet_stream() {
    let db = fixture_db();
    let empty: &[u8] = b"";
    assert_eq!(db.from_u8(empty), "application/octet-stream");
}

#[test]
fn plain_text_identifies_as_text() {
    let db = fixture_db();
    assert_eq!(db.from_u8(b"hello, graph walker\n"), "text/plain");
}

#[test]
fn unknown_type_never_matches() {
    let db = fixture_db();
    assert!(!db.match_u8("video/unheard-of", b"GIF89a"));
    assert!(!db.match_u8("video/unheard-of", b""));
    assert!(!db.match_u8("video/unheard-of", b"anything at all"));
}

#[test]
fn alias_matches_exactly_like_canonical() {
    let db = fixture_db();
    let zip: &[u8] = b"PK\x03\x04rest of archive";
    let gif: &[u8] = b"GIF87a";
    assert!(db.match_u8("application/zip", zip));
    assert!(db.match_u8("application/x-zip-compressed", zip));
    assert_eq!(
        db.match_u8("application/x-zip-compressed", gif),
        db.match_u8("application/zip", gif),
    );
}

#[test]
fn identify_is_deterministic() {
    let db = fixture_db();
    let bytes: &[u8] = b"\x89PNG\r\n\x1a\nIHDR";
    let first = db.from_u8(bytes).to_owned();
    let second = db.from_u8(bytes).to_owned();
    assert_eq!(first, second);
    assert_eq!(first, "image/png");
}

#[test]
fn zero_checkers_identify_nothing() {
    let db = MimeDb::new(vec![]);
    assert!(db.try_from_u8(b"GIF89a").is_none());
    assert!(!db.match_u8("image/gif", b"GIF89a"));
}

#[test]
fn binary_junk_falls_back_to_octet_stream() {
    let db = fixture_db();
    assert_eq!(db.from_u8(&[0u8, 1, 2, 3, 255, 254]), "application/octet-stream");
}

#[test]
fn rule_offset_is_honored() {
    let db = fixture_db();
    // The GIF magic must sit at offset zero; shifted by one it must not match.
    assert!(!db.match_u8("image/gif", b" GIF89a"));
}
