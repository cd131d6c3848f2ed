use std::path::{Path, PathBuf};
use sync_rs::digest::FileHash;
use sync_rs::paths::{path_file_name, path_join};
use sync_rs::text::{chars_of, joined, to_decimal};
use sync_rs::transport::file_hash;

const PATHS: [&str; 22] = [
    "", ".", "..", "/", "//", "a", "a/", "a//", "a/.", "a/./", "a/..", "../a", "./a", "/a", "a/b",
    "a//b", "a/b/./.", "...", "a/...", ".hidden", "é/ü.txt", "a b/c d",
];

#[test]
fn names_are_those_that_std_finds() {
    for path in PATHS {
        let expected = Path::new(path).file_name().map(|n| n.to_str().unwrap().to_string());
        assert_eq!(path_file_name(path), expected, "{}", path);
    }
}

#[test]
fn paths_are_joined_as_std_joins_them() {
    for base in PATHS {
        for path in PATHS {
            let expected = PathBuf::from(base).join(path);
            assert_eq!(path_join(base, path), expected.to_str().unwrap(), "{} {}", base, path);
        }
    }
}

#[test]
fn decimals() {
    for n in [0u64, 7, 10, 99, 100, 1234567890, u64::MAX] {
        assert_eq!(to_decimal(n), format!("{}", n));
    }
    assert_eq!(joined("ab", "cé"), "abcé");
    assert_eq!(chars_of("aé"), vec!['a', 'é']);
}

fn hex(hash: FileHash) -> String {
    hash.iter().map(|b| format!("{:02x}", b)).collect()
}

#[test]
fn hashes_are_blake3() {
    assert_eq!(
        hex(file_hash(b"")),
        "af1349b9f5f9a1a6a0404dea36dcc9499bcb25c9adc112b7cc9a93cae41f3262"
    );
    assert_eq!(
        hex(file_hash(b"abc")),
        "6437b3ac38465133ffb63b75273a8db548c558465d79db03fd359c6cd5bd9d85"
    );
}
