use rgit::archive::{self, Archive, Decision, Outcome, Step, BUFFER_CAP, LEVEL};
use std::io::Read;

/// The entries of a compressed archive: path, mode and content.
fn entries(stream: &[u8]) -> Vec<(String, u32, Vec<u8>)> {
    let mut archive = tar::Archive::new(flate2::read::GzDecoder::new(stream));
    let mut found = Vec::new();
    for entry in archive.entries().unwrap() {
        let mut entry = entry.unwrap();
        let path = entry.path().unwrap().to_str().unwrap().to_owned();
        let mode = entry.header().mode().unwrap();
        assert_eq!(entry.header().mtime().unwrap(), 0);
        let mut content = Vec::new();
        entry.read_to_end(&mut content).unwrap();
        assert_eq!(entry.header().size().unwrap(), content.len() as u64);
        found.push((path, mode, content));
    }
    found
}

fn noise(len: usize) -> Vec<u8> {
    let mut state: u64 = 0x2545_f491_4f6c_dd1d;
    (0..len)
        .map(|_| {
            state ^= state << 13;
            state ^= state >> 7;
            state ^= state << 17;
            (state >> 32) as u8
        })
        .collect()
}

#[test]
fn an_archive_gives_its_files_back() {
    let mut archive = Archive::new();
    assert!(matches!(archive.add("", b"README", 0o100644, Some(b"hello")), Step::Continue));
    assert!(matches!(archive.add("", b"src", 0o040000, None), Step::Continue));
    assert!(matches!(archive.add("src/", b"main.rs", 0o100755, Some(b"")), Step::Continue));
    let block = vec![7u8; 512];
    assert!(matches!(archive.add("src/", b"gr\xc3\xbcn", 0o100644, Some(&block)), Step::Continue));
    let stream = archive.finish().unwrap();
    assert_eq!(
        entries(&stream),
        [
            ("README".to_owned(), 0o100644, b"hello".to_vec()),
            ("src/main.rs".to_owned(), 0o100755, Vec::new()),
            ("src/grün".to_owned(), 0o100644, block),
        ]
    );
}

#[test]
fn an_archive_is_made_of_blocks() {
    let mut archive = Archive::new();
    archive.add("", b"a", 0o100644, Some(b"xyz"));
    let stream = archive.finish().unwrap();
    let mut bytes = Vec::new();
    flate2::read::GzDecoder::new(&stream[..]).read_to_end(&mut bytes).unwrap();
    assert_eq!(bytes.len(), 512 + 512 + 1024);
    assert_eq!(&bytes[0..3], b"a\0\0");
    assert_eq!(&bytes[100..108], b"0100644\0");
    assert_eq!(&bytes[124..136], b"00000000003\0");
    assert_eq!(&bytes[136..148], b"00000000000\0");
    assert_eq!(&bytes[257..265], b"ustar  \0");
    let sum: u32 = bytes[..512]
        .iter()
        .enumerate()
        .map(|(i, b)| if (148..156).contains(&i) { 32 } else { *b as u32 })
        .sum();
    assert_eq!(&bytes[148..156], format!("{:07o}\0", sum).as_bytes());
    assert_eq!(&bytes[512..515], b"xyz");
    assert!(bytes[515..].iter().all(|b| *b == 0));
}

#[test]
fn an_empty_archive_is_its_end() {
    let stream = Archive::new().finish().unwrap();
    assert!(stream.len() >= 8);
    let mut bytes = Vec::new();
    flate2::read::GzDecoder::new(&stream[..]).read_to_end(&mut bytes).unwrap();
    assert_eq!(bytes, vec![0u8; 1024]);
}

#[test]
fn long_paths_are_skipped() {
    let mut archive = Archive::new();
    let fits = "a".repeat(100);
    assert!(matches!(archive.add("", fits.as_bytes(), 0o100644, Some(b"x")), Step::Continue));
    let long = "a".repeat(101);
    assert!(matches!(archive.add("", long.as_bytes(), 0o100644, Some(b"x")), Step::Skip));
    let dir = format!("{}/", "d".repeat(98));
    assert!(matches!(archive.add(&dir, b"e", 0o100644, Some(b"x")), Step::Continue));
    assert!(matches!(archive.add(&dir, b"ee", 0o100644, Some(b"x")), Step::Skip));
    assert!(matches!(archive.add("", b"..", 0o100644, Some(b"x")), Step::Skip));
    assert!(matches!(archive.add("", b"/etc", 0o100644, Some(b"x")), Step::Skip));
    let stream = archive.finish().unwrap();
    let paths: Vec<String> = entries(&stream).into_iter().map(|e| e.0).collect();
    assert_eq!(paths, [fits, format!("{}e", dir)]);
}

/// The name that an archive of one file has for a path.
fn stored(root: &str, name: &str) -> Option<String> {
    let mut archive = Archive::new();
    match archive.add(root, name.as_bytes(), 0o100644, Some(b"")) {
        Step::Skip => return None,
        Step::Continue => {}
        _ => panic!("not written"),
    }
    let mut bytes = Vec::new();
    let stream = archive.finish().unwrap();
    flate2::read::GzDecoder::new(&stream[..]).read_to_end(&mut bytes).unwrap();
    let end = bytes[..100].iter().position(|b| *b == 0).unwrap_or(100);
    assert!(bytes[end..100].iter().all(|b| *b == 0));
    Some(String::from_utf8(bytes[..end].to_vec()).unwrap())
}

#[test]
fn paths_are_made_of_names() {
    let expected = [
        ("a", Some("a")),
        ("a/b", Some("a/b")),
        ("a//b", Some("a/b")),
        ("a/./b", Some("a/b")),
        ("./a", Some("a")),
        ("a/.", Some("a")),
        ("a/", Some("a/")),
        ("a//", Some("a/")),
        ("a/./", Some("a/")),
        (".", Some(".")),
        ("./", Some("./")),
        ("./.", Some(".")),
        (".//./", Some("./")),
        ("...", Some("...")),
        (".a/..b", Some(".a/..b")),
        ("gr\u{fc}n", Some("gr\u{fc}n")),
        ("", None),
        ("/", None),
        ("/a", None),
        ("..", None),
        ("a/..", None),
        ("../a", None),
        ("a/../b", None),
        ("./..", None),
        ("a\0b", None),
        ("\0", None),
    ];
    for (path, name) in expected {
        assert_eq!(stored("", path).as_deref(), name, "{:?}", path);
    }
    let fifty = "a".repeat(50);
    assert_eq!(
        stored(&format!("{}/./", fifty), &"b".repeat(49)),
        Some(format!("{}/{}", fifty, "b".repeat(49)))
    );
    assert_eq!(stored(&format!("{}/./", fifty), &"b".repeat(50)), None);
}

#[test]
fn an_archive_is_sent_while_it_is_written() {
    let mut archive = Archive::new();
    let content = noise(400_000);
    let mut chunks: Vec<Vec<u8>> = Vec::new();
    for k in 0..6 {
        let name = format!("noise{}", k);
        match archive.add("dir/", name.as_bytes(), 0o100644, Some(&content)) {
            Step::Send(chunk) => {
                assert!(chunk.len() >= BUFFER_CAP);
                chunks.push(chunk);
            }
            Step::Continue => {}
            _ => panic!("not written"),
        }
    }
    assert!(chunks.len() >= 2);
    chunks.push(archive.finish().unwrap());
    let found = entries(&chunks.concat());
    assert_eq!(found.len(), 6);
    for (k, (path, mode, bytes)) in found.into_iter().enumerate() {
        assert_eq!((path, mode), (format!("dir/noise{}", k), 0o100644));
        assert!(bytes == content);
    }
}

#[test]
fn what_follows_an_entry_is_decided() {
    for outcome in [Outcome::NoFile, Outcome::Written] {
        assert_eq!(archive::decide(outcome, 0), Decision::Continue);
        assert_eq!(archive::decide(outcome, BUFFER_CAP - 1), Decision::Continue);
        assert_eq!(archive::decide(outcome, BUFFER_CAP), Decision::Send);
    }
    assert_eq!(archive::decide(Outcome::BadPath, BUFFER_CAP), Decision::Skip);
    assert_eq!(archive::decide(Outcome::NotWritten, BUFFER_CAP), Decision::Abort);
    assert_eq!(BUFFER_CAP, 512 * 1024);
    assert_eq!(LEVEL, flate2::Compression::fast().level());
}
