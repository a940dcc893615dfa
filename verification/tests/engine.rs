//! End-to-end tests of the query engine over a small signature corpus.

use tree_magic::{
    from_u8, from_u8_node, from_filepath_node, graph_init, is_alias, match_filepath, match_u8,
    needed_prefix_len, FileKind, TypeStruct,
};

/// A small compiled magic corpus in the spirit of the shared MIME database.
fn magic_blob() -> Vec<u8> {
    let mut v: Vec<u8> = Vec::new();
    v.extend_from_slice(b"MIME-Magic\0\n");
    v.extend_from_slice(b"[50:image/gif]\n");
    v.extend_from_slice(b">0=\x00\x04GIF8\n");
    v.extend_from_slice(b"[50:image/png]\n");
    v.extend_from_slice(b">0=\x00\x08\x89PNG\x0d\x0a\x1a\x0a\n");
    v.extend_from_slice(b"[50:image/bmp]\n");
    v.extend_from_slice(b">0=\x00\x02BM\n");
    v.extend_from_slice(b"[50:image/tiff]\n");
    v.extend_from_slice(b">0=\x00\x04II*\x00\n");
    v.extend_from_slice(b"[50:image/x-portable-bitmap]\n");
    v.extend_from_slice(b">0=\x00\x02P1\n");
    v.extend_from_slice(b">0=\x00\x02P4\n");
    v.extend_from_slice(b"[50:image/x-pcx]\n");
    v.extend_from_slice(b">0=\x00\x01\x0a\n");
    v.extend_from_slice(b"[50:application/zip]\n");
    v.extend_from_slice(b">0=\x00\x04PK\x03\x04\n");
    v.extend_from_slice(b"[45:application/vnd.nested.zip]\n");
    v.extend_from_slice(b">0=\x00\x04PK\x03\x04\n");
    v.extend_from_slice(b"1>30=\x00\x06NESTED\n");
    v.extend_from_slice(b"[50:application/x-tar]\n");
    v.extend_from_slice(b">257=\x00\x05ustar\n");
    v.extend_from_slice(b"[50:application/x-7z-compressed]\n");
    v.extend_from_slice(b">0=\x00\x067z\xbc\xaf\x27\x1c\n");
    v.extend_from_slice(b"[50:image/x-tga]\n");
    v.extend_from_slice(b">1=\x00\x02\x01\x01\n");
    v.extend_from_slice(b"[50:audio/flac]\n");
    v.extend_from_slice(b">0=\x00\x04fLaC\n");
    v.extend_from_slice(b"[50:audio/mpeg]\n");
    v.extend_from_slice(b">0=\x00\x02\xff\xfb\n");
    v.extend_from_slice(b"[50:audio/ogg]\n");
    v.extend_from_slice(b">0=\x00\x04OggS\n");
    // a two-level rule: RIFF container at 0, WAVE tag at 8
    v.extend_from_slice(b"[50:audio/wav]\n");
    v.extend_from_slice(b">0=\x00\x04RIFF\n");
    v.extend_from_slice(b"1>8=\x00\x04WAVE\n");
    // a masked rule: an uppercase match that ignores the case bit
    v.extend_from_slice(b"[50:application/x-caseless]\n");
    v.extend_from_slice(b">0=\x00\x04MAGI&\xdf\xdf\xdf\xdf\n");
    // a windowed rule: the pattern may float within the first bytes
    v.extend_from_slice(b"[50:application/x-floating]\n");
    v.extend_from_slice(b">0=\x00\x04FLOT+8\n");
    v
}

fn subclasses_text() -> &'static [u8] {
    b"application/vnd.nested.zip application/zip\n"
}

fn aliases_text() -> &'static [u8] {
    b"application/x-zip-compressed application/zip\n"
}

fn engine() -> TypeStruct {
    graph_init(&magic_blob(), subclasses_text(), aliases_text()).0
}

#[test]
fn from_u8_image_gif() {
    let e = engine();
    assert_eq!(from_u8(&e, b"GIF89a\x01\x00"), "image/gif");
}

#[test]
fn from_u8_image_png() {
    let e = engine();
    assert_eq!(from_u8(&e, b"\x89PNG\x0d\x0a\x1a\x0a\x00\x00"), "image/png");
}

#[test]
fn image_bmp() {
    let e = engine();
    assert_eq!(from_u8(&e, b"BM\x36\x00"), "image/bmp");
}

#[test]
fn from_u8_image_tiff() {
    let e = engine();
    assert_eq!(from_u8(&e, b"II*\x00\x10\x00"), "image/tiff");
}

#[test]
fn from_u8_image_x_portable_bitmap() {
    let e = engine();
    assert_eq!(from_u8(&e, b"P4\x0a\x06\x00"), "image/x-portable-bitmap");
    // the ASCII variant is also plain text; the narrow query still confirms it
    assert_eq!(match_u8(&e, "image/x-portable-bitmap", b"P1\x0a# pbm"), true);
}

#[test]
fn from_u8_image_x_pcx() {
    let e = engine();
    assert_eq!(from_u8(&e, b"\x0a\x05\x01\x08\x00\x01"), "image/x-pcx");
}

#[test]
fn from_u8_image_x_tga() {
    let e = engine();
    assert_eq!(from_u8(&e, b"\x00\x01\x01\x00\x00"), "image/x-tga");
}

#[test]
fn from_u8_application_zip() {
    let e = engine();
    assert_eq!(from_u8(&e, b"PK\x03\x04\x14\x00"), "application/zip");
}

#[test]
fn from_u8_application_tar() {
    let e = engine();
    let mut tar = vec![0x30u8; 257];
    tar.extend_from_slice(b"ustar\x00");
    assert_eq!(from_u8(&e, &tar), "application/x-tar");
}

#[test]
fn from_u8_application_x_7z() {
    let e = engine();
    assert_eq!(from_u8(&e, b"7z\xbc\xaf\x27\x1c\x00\x04"), "application/x-7z-compressed");
}

#[test]
fn from_u8_audio_flac() {
    let e = engine();
    assert_eq!(from_u8(&e, b"fLaC\x00\x00\x00\x22"), "audio/flac");
}

#[test]
fn from_u8_audio_mpeg() {
    let e = engine();
    assert_eq!(from_u8(&e, b"\xff\xfb\x90\x44\x00\x00"), "audio/mpeg");
}

#[test]
fn from_u8_text_plain() {
    let e = engine();
    assert_eq!(from_u8(&e, b"Hello"), "text/plain");
}

#[test]
fn from_u8_octet_stream_fallback() {
    let e = engine();
    assert_eq!(from_u8(&e, b"\x00\x00\x00\x00"), "application/octet-stream");
}

#[test]
fn from_u8_empty_buffer() {
    let e = engine();
    // an empty buffer is still a byte stream without null bytes
    assert_eq!(from_u8(&e, b""), "text/plain");
}

#[test]
fn guided_walk_reaches_subclassed_type() {
    let e = engine();
    // the nested format is a child of application/zip in the subclass table,
    // so the walk confirms the ZIP signature first and then descends
    let mut b = b"PK\x03\x04".to_vec();
    b.resize(30, 0x20u8);
    b.extend_from_slice(b"NESTED");
    assert_eq!(from_u8(&e, &b), "application/vnd.nested.zip");
}

#[test]
fn from_u8_node_zip_has_nothing_deeper() {
    let e = engine();
    let zipnode = e.graph.find_node(&"application/zip".to_string()).unwrap();
    // plain ZIP bytes match no subclass of ZIP, so the restricted walk
    // returns None
    assert_eq!(from_u8_node(&e, zipnode, b"PK\x03\x04\x14\x00"), None);
}

#[test]
fn masked_rule_ignores_masked_bits() {
    let e = engine();
    assert_eq!(from_u8(&e, b"magi\x00"), "application/x-caseless");
    assert_eq!(from_u8(&e, b"MaGi\x00"), "application/x-caseless");
    assert_eq!(match_u8(&e, "application/x-caseless", b"MAGI"), true);
    assert_eq!(match_u8(&e, "application/x-caseless", b"NAGI"), false);
}

#[test]
fn windowed_rule_searches_region() {
    let e = engine();
    assert_eq!(from_u8(&e, b"..FLOT....\x00."), "application/x-floating");
    // past the search region the pattern no longer counts
    assert_eq!(from_u8(&e, b".........FLOT"), "text/plain");
    assert_eq!(match_u8(&e, "application/x-floating", b"........FLOT"), true);
    assert_eq!(match_u8(&e, "application/x-floating", b".........FLOT"), false);
}

#[test]
fn match_u8_image_gif() {
    let e = engine();
    assert_eq!(match_u8(&e, "image/gif", b"GIF89a\x01\x00"), true);
}

#[test]
fn match_u8_image_png() {
    let e = engine();
    assert_eq!(match_u8(&e, "image/png", b"\x89PNG\x0d\x0a\x1a\x0a"), true);
    assert_eq!(match_u8(&e, "image/png", b"GIF89a\x01\x00"), false);
}

#[test]
fn image_x_bmp() {
    let e = engine();
    assert_eq!(match_u8(&e, "image/bmp", b"BM\x36\x00"), true);
}

#[test]
fn match_u8_image_tiff() {
    let e = engine();
    assert_eq!(match_u8(&e, "image/tiff", b"II*\x00\x10\x00"), true);
}

#[test]
fn match_u8_image_x_portable_bitmap() {
    let e = engine();
    assert_eq!(match_u8(&e, "image/x-portable-bitmap", b"P4\x0a\x06\x06"), true);
}

#[test]
fn match_u8_image_x_pcx() {
    let e = engine();
    assert_eq!(match_u8(&e, "image/x-pcx", b"\x0a\x05\x01\x08"), true);
}

#[test]
fn match_u8_image_x_tga() {
    let e = engine();
    assert_eq!(match_u8(&e, "image/x-tga", b"\x00\x01\x01\x00\x00"), true);
}

#[test]
fn match_u8_application_tar() {
    let e = engine();
    let mut tar = vec![0x30u8; 257];
    tar.extend_from_slice(b"ustar\x00");
    assert_eq!(match_u8(&e, "application/x-tar", &tar), true);
    // the buffer must cover the rule's whole extent
    assert_eq!(match_u8(&e, "application/x-tar", b"ustar"), false);
}

#[test]
fn match_u8_application_x_7z() {
    let e = engine();
    assert_eq!(match_u8(&e, "application/x-7z-compressed", b"7z\xbc\xaf\x27\x1c"), true);
}

#[test]
fn match_u8_application_zip() {
    let e = engine();
    assert_eq!(match_u8(&e, "application/zip", b"PK\x03\x04\x14\x00"), true);
}

#[test]
fn match_u8_text_plain() {
    let e = engine();
    assert_eq!(match_u8(&e, "text/plain", b"Hello"), true);
    assert_eq!(match_u8(&e, "text/plain", b"He\x00llo"), false);
}

#[test]
fn match_u8_audio_flac() {
    let e = engine();
    assert_eq!(match_u8(&e, "audio/flac", b"fLaC\x00\x00\x00\x22"), true);
}

#[test]
fn match_u8_audio_mpeg() {
    let e = engine();
    assert_eq!(match_u8(&e, "audio/mpeg", b"\xff\xfb\x90\x44"), true);
}

#[test]
fn audio_ogg() {
    let e = engine();
    assert_eq!(match_u8(&e, "audio/ogg", b"OggS\x00\x02"), true);
}

#[test]
fn audio_wav() {
    let e = engine();
    assert_eq!(match_u8(&e, "audio/wav", b"RIFF\x24\x00\x00\x00WAVE"), true);
    // the RIFF container alone is not enough: the WAVE tag must follow
    assert_eq!(match_u8(&e, "audio/wav", b"RIFF\x24\x00\x00\x00AVI "), false);
}

#[test]
fn match_u8_parents_of_a_match() {
    let e = engine();
    let gif = b"GIF89a\x01\x00";
    assert_eq!(match_u8(&e, "image/gif", gif), true);
    assert_eq!(match_u8(&e, "application/octet-stream", gif), true);
    assert_eq!(match_u8(&e, "all/allfiles", gif), true);
    // all/all and inode/directory are path-only types: no byte buffer
    // confirms them
    assert_eq!(match_u8(&e, "all/all", gif), false);
    assert_eq!(match_u8(&e, "inode/directory", gif), false);
}

#[test]
fn match_u8_unknown_mime_is_false() {
    let e = engine();
    assert_eq!(match_u8(&e, "application/does-not-exist", b"GIF89a"), false);
}

#[test]
fn is_alias_finds_zip_alias() {
    let e = engine();
    assert_eq!(is_alias(&e, "application/zip".to_string(), "application/x-zip-compressed".to_string()), true);
    assert_eq!(is_alias(&e, "application/x-zip-compressed".to_string(), "application/zip".to_string()), true);
    assert_eq!(is_alias(&e, "image/gif".to_string(), "image/png".to_string()), false);
    assert_eq!(is_alias(&e, "application/zip".to_string(), "application/zip".to_string()), true);
}

#[test]
fn alias_matches_like_its_canonical_type() {
    let e = engine();
    let zip = b"PK\x03\x04\x14\x00";
    assert_eq!(match_u8(&e, "application/x-zip-compressed", zip), true);
    assert_eq!(match_u8(&e, "application/x-zip-compressed", b"GIF89a"), false);
}

#[test]
fn nonexistent_file_returns_none() {
    let e = engine();
    let root = e.graph.first_root().unwrap();
    // a path that cannot be inspected matches nothing, not even all/all
    assert_eq!(from_filepath_node(&e, root, FileKind::Missing, b""), None);
}

#[test]
fn directory_resolves_to_inode_directory() {
    let e = engine();
    let root = e.graph.first_root().unwrap();
    assert_eq!(
        from_filepath_node(&e, root, FileKind::Directory, b""),
        Some("inode/directory".to_string())
    );
}

#[test]
fn regular_file_resolves_by_content() {
    let e = engine();
    let root = e.graph.first_root().unwrap();
    assert_eq!(
        from_filepath_node(&e, root, FileKind::Regular, b"GIF89a\x01\x00"),
        Some("image/gif".to_string())
    );
}

#[test]
fn match_filepath_by_kind() {
    let e = engine();
    assert_eq!(match_filepath(&e, "all/all", FileKind::Directory, b""), true);
    assert_eq!(match_filepath(&e, "all/all", FileKind::Missing, b""), false);
    assert_eq!(match_filepath(&e, "inode/directory", FileKind::Directory, b""), true);
    assert_eq!(match_filepath(&e, "inode/directory", FileKind::Regular, b""), false);
    assert_eq!(match_filepath(&e, "text/plain", FileKind::Regular, b"hi"), true);
    assert_eq!(match_filepath(&e, "text/plain", FileKind::Directory, b"hi"), false);
    assert_eq!(match_filepath(&e, "image/gif", FileKind::Regular, b"GIF89a"), true);
    assert_eq!(match_filepath(&e, "image/gif", FileKind::Missing, b"GIF89a"), false);
}

#[test]
fn needed_prefix_len_per_mime() {
    let e = engine();
    // the tar rule reads offsets 257..262
    assert_eq!(needed_prefix_len(&e, "application/x-tar"), 262);
    assert_eq!(needed_prefix_len(&e, "text/plain"), 512);
    assert_eq!(needed_prefix_len(&e, "application/does-not-exist"), 0);
    // an alias needs what its canonical type needs
    assert_eq!(needed_prefix_len(&e, "application/x-zip-compressed"), 4);
}

#[test]
fn identification_is_deterministic() {
    let e = engine();
    let first = from_u8(&e, b"GIF89a\x01\x00");
    for _ in 0..3 {
        assert_eq!(from_u8(&e, b"GIF89a\x01\x00"), first);
    }
}

#[test]
fn engine_answers_base_queries_without_magic_data() {
    // a bad magic blob degrades the magic provider to no rules; the base
    // types still answer
    let e = graph_init(b"junk", b"", b"").0;
    assert_eq!(from_u8(&e, b"Hello"), "text/plain");
    assert_eq!(from_u8(&e, b"\x00"), "application/octet-stream");
    assert_eq!(match_u8(&e, "image/gif", b"GIF89a"), false);
}
