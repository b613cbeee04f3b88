use encrypt::bytes::{append, copied, same_bytes, u32_from_le, u32_to_le, u64_to_be};
use encrypt::fsops::naming::{ciphertext_path, temporary_path};
use encrypt::fsops::{get_unique_path, reserve_ciphertext_path, FileError};
use encrypt::paths::{
    extension, file_name, file_stem, join, parent, parent_directory, with_extension,
};
use encrypt::text::{decimal, joined, parse_number};
use std::path::Path;

fn samples() -> Vec<Vec<u8>> {
    let pieces: [&[u8]; 8] = [b"", b".", b"..", b"a", b".b", b"c.d", b"e.f.g", b"h."];
    let mut all = vec![b"...".to_vec(), "naïve/ü.ö".as_bytes().to_vec()];
    for a in pieces {
        all.push(a.to_vec());
        all.push([&b"/"[..], a].concat());
        all.push([&b"//"[..], a].concat());
        for b in pieces {
            all.push([a, &b"/"[..], b].concat());
            all.push([&b"/"[..], a, &b"/"[..], b].concat());
            for c in pieces {
                all.push([a, &b"/"[..], b, &b"/"[..], c].concat());
                all.push([&b"/"[..], a, &b"//"[..], b, &b"/"[..], c].concat());
            }
        }
    }
    all
}

fn std_path(bytes: &[u8]) -> &Path {
    Path::new(std::str::from_utf8(bytes).unwrap())
}

fn raw(part: Option<&str>) -> Option<&[u8]> {
    part.map(|p| p.as_bytes())
}

#[test]
fn file_names_are_those_of_std() {
    for p in samples() {
        let expected = std_path(&p).file_name().and_then(|n| n.to_str());
        assert_eq!(file_name(&p), raw(expected), "{:?}", p);
    }
}

#[test]
fn parents_are_those_of_std() {
    for p in samples() {
        let expected = std_path(&p).parent().and_then(|n| n.to_str());
        assert_eq!(parent(&p), raw(expected), "{:?}", p);
    }
}

#[test]
fn stems_and_extensions_are_those_of_std() {
    for p in samples() {
        let path = std_path(&p);
        assert_eq!(file_stem(&p), raw(path.file_stem().and_then(|n| n.to_str())), "{:?}", p);
        assert_eq!(extension(&p), raw(path.extension().and_then(|n| n.to_str())), "{:?}", p);
    }
}

#[test]
fn joins_are_those_of_std() {
    let names = ["x", "/x", "", "x/y", "..", "é"];
    for p in samples() {
        for n in names {
            let expected = std_path(&p).join(n);
            assert_eq!(
                join(&p, n.as_bytes()),
                expected.to_str().unwrap().as_bytes(),
                "{:?} {:?}",
                p,
                n
            );
        }
    }
}

#[test]
fn changed_extensions_are_those_of_std() {
    for p in samples() {
        let expected = std_path(&p).with_extension("key");
        assert_eq!(with_extension(&p, b"key"), expected.to_str().unwrap().as_bytes(), "{:?}", p);
    }
}

#[test]
fn names_need_not_be_text() {
    assert_eq!(file_name(b"dir/\xff\xfe.txt"), Some(&b"\xff\xfe.txt"[..]));
    assert_eq!(file_stem(b"dir/\xff\xfe.txt"), Some(&b"\xff\xfe"[..]));
    assert_eq!(extension(b"\x80.\x81"), Some(&b"\x81"[..]));
    assert_eq!(parent(b"\x80/\x81"), Some(&b"\x80"[..]));
    assert_eq!(with_extension(b"\x80.\x81", b"key"), b"\x80.key");
}

#[test]
fn missing_parent_is_the_current_directory() {
    assert_eq!(parent_directory(b"/"), b".");
    assert_eq!(parent_directory(b""), b".");
    assert_eq!(parent_directory(b"a"), b"");
    assert_eq!(parent_directory(b"/a"), b"/");
    assert_eq!(parent_directory(b"a/b"), b"a");
}

#[test]
fn file_name_never_leaves_its_directory() {
    for p in samples() {
        if let Some(name) = file_name(&p) {
            assert!(!name.is_empty() && !name.contains(&b'/') && name != b"." && name != b"..");
            assert_eq!(parent(&join(b"safe", name)), Some(&b"safe"[..]));
            assert_eq!(file_name(&join(b"safe", name)), Some(name));
        }
    }
    assert_eq!(file_name(b"../../etc/passwd"), Some(&b"passwd"[..]));
}

#[test]
fn unique_paths_are_numbered() {
    assert_eq!(get_unique_path(b"dir/report.pdf", 0).unwrap(), b"dir/report.pdf");
    assert_eq!(get_unique_path(b"dir/report.pdf", 1).unwrap(), b"dir/report_1.pdf");
    assert_eq!(get_unique_path(b"dir/report.pdf", 9999).unwrap(), b"dir/report_9999.pdf");
    assert_eq!(get_unique_path(b"notes", 2).unwrap(), b"notes_2");
    assert_eq!(get_unique_path(b".hidden", 3).unwrap(), b".hidden_3");
    assert_eq!(get_unique_path(b"/a.tar.gz", 4).unwrap(), b"/a.tar_4.gz");
    assert_eq!(get_unique_path(b"x.\xff", 5).unwrap(), b"x_5");
}

#[test]
fn unique_paths_run_out() {
    assert!(matches!(get_unique_path(b"a", 10000), Err(FileError::TooManyDuplicates)));
    assert!(matches!(get_unique_path(b"/", 1), Err(FileError::InvalidPath)));
    assert!(matches!(get_unique_path(b"a/..", 1), Err(FileError::InvalidName)));
    assert!(matches!(get_unique_path(b"\xff.txt", 1), Err(FileError::InvalidName)));
    assert_eq!(get_unique_path(b"/", 0).unwrap(), b"/");
}

#[test]
fn variants_differ_and_stay_in_place() {
    let mut seen = std::collections::HashSet::new();
    for i in 0..200 {
        let variant = get_unique_path(b"some/dir/file.txt", i).unwrap();
        assert_eq!(parent(&variant), Some(&b"some/dir"[..]));
        assert!(seen.insert(variant));
    }
}

#[test]
fn ciphertext_names_run_out_after_64_attempts() {
    let name = "abcdefgh12345678";
    assert_eq!(reserve_ciphertext_path(b"d", 0, name).unwrap(), b"d/abcdefgh12345678.enc");
    assert_eq!(reserve_ciphertext_path(b"", 63, name).unwrap(), b"abcdefgh12345678.enc");
    assert!(matches!(
        reserve_ciphertext_path(b"d", 64, name),
        Err(FileError::NoCiphertextName)
    ));
    assert_eq!(
        FileError::NoCiphertextName.message(),
        "Unable to allocate a unique ciphertext name"
    );
}

#[test]
fn random_paths_stay_in_place() {
    assert_eq!(ciphertext_path(b"/", "abc"), b"/abc.enc");
    assert_eq!(temporary_path(b"d", "abc"), b"d/.abc.tmp");
    assert_eq!(parent(&temporary_path(b"d", "abc")), Some(&b"d"[..]));
}

#[test]
fn integers_are_laid_out() {
    assert_eq!(u32_to_le(0x01020304), [4, 3, 2, 1]);
    assert_eq!(u32_from_le(&[4, 3, 2, 1]), 0x01020304);
    assert_eq!(u32_from_le(&[255; 4]), u32::MAX);
    assert_eq!(u64_to_be(0x0102030405060708), [1, 2, 3, 4, 5, 6, 7, 8]);
    assert_eq!(u64_to_be(u64::MAX), [255; 8]);
}

#[test]
fn byte_rows_are_compared_and_put_together() {
    assert!(same_bytes(b"ab", b"ab"));
    assert!(!same_bytes(b"ab", b"ac"));
    assert!(!same_bytes(b"ab", b"abc"));
    let mut v = copied(b"ab");
    append(&mut v, b"cd");
    assert_eq!(v, b"abcd");
}

#[test]
fn decimals_are_written() {
    for n in [0u64, 9, 10, 99, 100, 1234567890, u64::MAX] {
        assert_eq!(decimal(n), n.to_string());
    }
    assert_eq!(joined("ab", "cd"), "abcd");
}

#[test]
fn decimals_are_read_as_std_reads_them() {
    let samples = [
        "", "+", "-", "0", "00", "7", "+7", "++7", "-7", "-0", " 7", "7 ", "1_0", "0x10", "12a",
        "18446744073709551615", "18446744073709551616", "99999999999999999999", "+0012", "\u{663}",
    ];
    for s in samples {
        assert_eq!(parse_number(s, u64::MAX), s.parse::<u64>().ok(), "{:?}", s);
    }
    assert_eq!(parse_number("255", 255), Some(255));
    assert_eq!(parse_number("256", 255), None);
}
