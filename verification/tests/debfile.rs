//! Package files.
use nala::debfile::{
    find_control, judge_control, read_archive, read_control, ControlFile, ControlPlace, DebFile,
    TarMember,
};
use nala::tagfile::TagSection;
use std::io::Write;

/// A tar archive with files at the given paths.
fn tar_of(files: &[(&str, &[u8])]) -> Vec<u8> {
    let mut tar = tar::Builder::new(Vec::new());
    for (path, data) in files {
        let mut header = tar::Header::new_gnu();
        header.as_gnu_mut().unwrap().name[..path.len()].copy_from_slice(path.as_bytes());
        header.set_size(data.len() as u64);
        header.set_mode(0o644);
        header.set_cksum();
        tar.append(&header, *data).unwrap();
    }
    tar.into_inner().unwrap()
}

fn xz(plain: &[u8]) -> Vec<u8> {
    let mut encoder = xz2::write::XzEncoder::new(Vec::new(), 1);
    encoder.write_all(plain).unwrap();
    encoder.finish().unwrap()
}

/// The same, compressed with xz.
fn tar_xz(files: &[(&str, &[u8])]) -> Vec<u8> {
    xz(&tar_of(files))
}

fn deb(members: &[(&str, &[u8])]) -> Vec<u8> {
    let mut builder = ar::Builder::new(Vec::new());
    for (name, data) in members {
        let header = ar::Header::new(name.as_bytes().to_vec(), data.len() as u64);
        builder.append(&header, *data).unwrap();
    }
    builder.into_inner().unwrap()
}

const CONTROL: &[u8] = b"Package: apt\nVersion: 2.6.1\n";

#[test]
fn the_control_file_of_a_package() {
    let control = tar_xz(&[("./md5sums", b"x"), ("./control", CONTROL)]);
    let data = deb(&[
        ("debian-binary", b"2.0\n"),
        ("control.tar.xz", &control),
        ("data.tar.xz", b"odd"),
    ]);
    assert_eq!(read_archive(&data).unwrap(), "Package: apt\nVersion: 2.6.1\n");
}

#[test]
fn a_package_without_a_control_file() {
    let data = deb(&[("debian-binary", b"2.0\n")]);
    assert_eq!(
        read_archive(&data).unwrap_err().message,
        "Could not determine valid deb file"
    );
    let control = tar_xz(&[("control", CONTROL)]);
    let data = deb(&[("control.tar.xz", &control)]);
    assert_eq!(
        read_archive(&data).unwrap_err().message,
        "Could not determine valid deb file"
    );
}

#[test]
fn a_malformed_package() {
    let data = deb(&[("control.tar.xz", b"not compressed")]);
    assert_eq!(read_archive(&data).unwrap_err().message, "The archive is malformed");
    assert_eq!(read_archive(b"no archive").unwrap_err().message, "The archive is malformed");
    let control = tar_xz(&[("./control", &[0xff, 0xfe])]);
    let data = deb(&[("control.tar.xz", &control)]);
    assert_eq!(read_archive(&data).unwrap_err().message, "The archive is malformed");
}

#[test]
fn long_names_in_either_way() {
    let control = tar_xz(&[("./control", CONTROL)]);
    let long = "a-rather-long-control.tar.xz";
    let data = deb(&[("debian-binary", b"2.0\n"), (long, &control)]);
    assert_eq!(read_archive(&data).unwrap().as_bytes(), CONTROL);

    let names = vec![b"debian-binary".to_vec(), long.as_bytes().to_vec()];
    let mut builder = ar::GnuBuilder::new(Vec::new(), names.clone());
    for (name, data) in names.into_iter().zip([&b"2.0\n"[..], &control[..]]) {
        let header = ar::Header::new(name, data.len() as u64);
        builder.append(&header, data).unwrap();
    }
    let data = builder.into_inner().unwrap();
    assert_eq!(read_archive(&data).unwrap().as_bytes(), CONTROL);
}

fn header(name: &str, size: &str) -> Vec<u8> {
    let blanks = " ".repeat(10 - size.len());
    format!("{name:<16}{:<12}{:<6}{:<6}{:<8}{size}{blanks}`\n", 0, 0, 0, 0).into_bytes()
}

#[test]
fn a_name_outside_the_table_is_not_read() {
    let mut data = deb(&[("debian-binary", b"2.0\n")]);
    data.extend_from_slice(&header("/9", "0"));
    assert_eq!(read_archive(&data).unwrap_err().message, "The archive is malformed");
}

#[test]
fn a_table_larger_than_the_archive_is_not_read() {
    for name in ["//", "#1/9999999999"] {
        let mut data = deb(&[("debian-binary", b"2.0\n")]);
        data.extend_from_slice(&header(name, "9999999999"));
        assert_eq!(read_archive(&data).unwrap_err().message, "The archive is malformed");
    }
}

#[test]
fn numbers_with_a_sign_or_white_space() {
    let control = tar_xz(&[("./control", CONTROL)]);
    let whole = |first: &str, tail: &str| {
        let mut data = b"!<arch>\n".to_vec();
        data.extend_from_slice(&header("debian-binary", first));
        data.extend_from_slice(b"2.0\n");
        data.extend_from_slice(&header("control.tar.xz", &format!("{}{tail}", control.len())));
        data.extend_from_slice(&control);
        read_archive(&data).map_err(|e| e.message)
    };
    for (first, tail) in [("+4", ""), ("4\t", "\t"), ("+04\r", "\u{b}\n"), ("4\u{a0}", "")] {
        assert_eq!(whole(first, tail).unwrap().as_bytes(), CONTROL, "{first:?}");
    }
    for first in ["-4", " 4", "4x", "+", "++4"] {
        assert_eq!(whole(first, "").unwrap_err(), "The archive is malformed");
    }
}

#[test]
fn a_member_that_is_cut_short() {
    let control = tar_xz(&[("./control", CONTROL)]);
    let mut data = deb(&[("debian-binary", b"2.0\n")]);
    data.extend_from_slice(&header("#1/14", &format!("{}", control.len() + 1000)));
    data.extend_from_slice(b"control.tar.xz");
    data.extend_from_slice(&control);
    assert_eq!(read_archive(&data).unwrap().as_bytes(), CONTROL);
}

#[test]
fn a_control_file_before_an_odd_header_is_found() {
    let control = tar_xz(&[("./control", CONTROL)]);
    let mut data = deb(&[("control.tar.xz", &control)]);
    if control.len() % 2 == 1 && data.len() % 2 == 1 {
        data.push(b'\n');
    }
    data.extend_from_slice(&header("/9", "0"));
    assert_eq!(read_archive(&data).unwrap().as_bytes(), CONTROL);
}

#[test]
fn the_first_control_file_counts() {
    let path = |path: &str| {
        Some(TarMember { path: path.as_bytes().to_vec(), size: 3, sparse: false })
    };
    let found = find_control(&vec![path("x"), path("./control"), None]);
    assert_eq!(found, ControlPlace::At(1));
    assert_eq!(find_control(&vec![None, path("./control")]), ControlPlace::Malformed);
    assert_eq!(find_control(&vec![path("control")]), ControlPlace::Absent);
}

#[test]
fn contents_that_are_cut_short() {
    let file = || Some((3, b"ab".to_vec()));
    assert!(read_control(file(), false).is_none());
    assert!(matches!(read_control(file(), true), Some(ControlFile::Text(t)) if t == "ab"));
    assert!(read_control(None, false).is_none());
    assert!(matches!(read_control(None, true), Some(ControlFile::Malformed)));
    let odd = Some((1, vec![0xff]));
    assert!(matches!(read_control(odd, false), Some(ControlFile::Malformed)));
}

fn read_tar(plain: &[u8]) -> Result<String, String> {
    read_archive(&deb(&[("control.tar.xz", &xz(plain))])).map_err(|e| e.message)
}

#[test]
fn a_control_file_behind_large_ones() {
    let noise: Vec<u8> = (0..300_000u32).map(|i| (i * i >> 7) as u8).collect();
    let plain = tar_of(&[("./a", &noise), ("./control", CONTROL), ("./b", &noise)]);
    assert_eq!(read_tar(&plain).unwrap().as_bytes(), CONTROL);
    let plain = tar_of(&[("./a", &noise)]);
    assert_eq!(read_tar(&plain).unwrap_err(), "Could not determine valid deb file");
}

#[test]
fn a_broken_stream_behind_the_control_file() {
    let noise: Vec<u8> = (0..300_000u32).map(|i| (i * i >> 7) as u8).collect();
    let mut packed = tar_xz(&[("./control", CONTROL), ("./b", &noise)]);
    packed.truncate(packed.len() / 2);
    let data = deb(&[("control.tar.xz", &packed)]);
    assert_eq!(read_archive(&data).unwrap().as_bytes(), CONTROL);
    let mut packed = tar_xz(&[("./b", &noise), ("./control", CONTROL)]);
    packed.truncate(packed.len() / 2);
    let data = deb(&[("control.tar.xz", &packed)]);
    assert_eq!(read_archive(&data).unwrap_err().message, "The archive is malformed");
}

/// The header of a sparse file.
fn sparse(size: u64, real_size: u64, extended: bool) -> Vec<u8> {
    let mut header = tar::Header::new_gnu();
    header.set_entry_type(tar::EntryType::GNUSparse);
    header.set_size(size);
    header.set_mode(0o644);
    let gnu = header.as_gnu_mut().unwrap();
    gnu.name[..3].copy_from_slice(b"./s");
    gnu.set_real_size(real_size);
    gnu.set_is_extended(extended);
    gnu.sparse[0].set_offset(real_size);
    gnu.sparse[0].set_length(0);
    header.set_cksum();
    header.as_bytes().to_vec()
}

#[test]
fn a_hole_before_the_control_file_is_not_read() {
    let mut plain = sparse(0, 8_000_000_000, false);
    plain.extend_from_slice(&tar_of(&[("./control", CONTROL)]));
    assert_eq!(read_tar(&plain).unwrap().as_bytes(), CONTROL);
}

#[test]
fn a_sparse_file_of_any_size_may_come_first() {
    for real_size in [1 << 40, 1 << 62, u64::MAX - 3] {
        let mut plain = sparse(0, real_size, false);
        plain.extend_from_slice(&tar_of(&[("./control", CONTROL)]));
        assert_eq!(read_tar(&plain).unwrap().as_bytes(), CONTROL);
    }
    let mut plain = sparse(0, 1 << 62, true);
    plain.extend_from_slice(&[0; 512]);
    plain.extend_from_slice(&tar_of(&[("./control", CONTROL)]));
    assert_eq!(read_tar(&plain).unwrap().as_bytes(), CONTROL);
}

#[test]
fn contents_that_look_like_a_header() {
    let mut odd = sparse(0xffff_ffff_ffff_fc00, 0, true);
    odd.extend_from_slice(&[1; 1024]);
    let plain = tar_of(&[("./a", &odd), ("./control", CONTROL)]);
    assert_eq!(read_tar(&plain).unwrap().as_bytes(), CONTROL);
    // An extended header gives the size of the file
    let mut plain = pax_record(b"13 size=1536\n");
    plain.extend_from_slice(&tar_of(&[("./a", b"")])[..512]);
    plain.extend_from_slice(&odd);
    plain.extend_from_slice(&tar_of(&[("./control", CONTROL)]));
    assert_eq!(read_tar(&plain).unwrap().as_bytes(), CONTROL);
}

#[test]
fn a_control_file_that_never_ends() {
    let mut header = tar::Header::new_gnu();
    header.as_mut_bytes().copy_from_slice(&sparse(0, u64::MAX - 3, false));
    header.as_gnu_mut().unwrap().name[..9].copy_from_slice(b"./control");
    header.set_cksum();
    let mut plain = header.as_bytes().to_vec();
    plain.extend_from_slice(&[0; 1024]);
    assert_eq!(read_tar(&plain).unwrap_err(), "The archive is malformed");
}

/// An extended header with a record.
fn pax_record(record: &[u8]) -> Vec<u8> {
    let mut pax = tar::Header::new_ustar();
    pax.set_entry_type(tar::EntryType::XHeader);
    pax.set_size(record.len() as u64);
    pax.set_cksum();
    let mut plain = pax.as_bytes().to_vec();
    plain.extend_from_slice(record);
    plain.resize(1024, 0);
    plain
}

#[test]
fn sizes_that_overflow_are_not_read() {
    let huge: u64 = 0xffff_ffff_ffff_fc00;
    let mut plain = sparse(huge, 0, true);
    plain.extend_from_slice(&[0; 2048]);
    assert_eq!(read_tar(&plain).unwrap_err(), "The archive is malformed");
    let mut plain = tar_of(&[("./control", CONTROL)]);
    plain.truncate(1024);
    plain.extend_from_slice(&sparse(huge, 0, true));
    assert_eq!(read_tar(&plain).unwrap().as_bytes(), CONTROL);
    let mut plain = pax_record(b"29 size=18446744073709549568\n");
    plain.extend_from_slice(&sparse(0, 0, true));
    plain.extend_from_slice(&[1; 1024]);
    assert_eq!(read_tar(&plain).unwrap_err(), "The archive is malformed");
}

#[test]
fn what_was_found_is_judged() {
    let text = || ControlFile::Text("c".to_string());
    assert_eq!(judge_control(vec![ControlFile::Absent, text()], false).unwrap(), "c");
    assert!(judge_control(vec![ControlFile::Malformed, text()], true).is_err());
    assert_eq!(
        judge_control(Vec::new(), true).unwrap_err().message,
        "Could not determine valid deb file"
    );
    assert_eq!(
        judge_control(Vec::new(), false).unwrap_err().message,
        "The archive is malformed"
    );
}

fn tags(fields: &[(&str, &str)]) -> TagSection {
    TagSection {
        fields: fields.iter().map(|(k, v)| (k.to_string(), v.to_string())).collect(),
    }
}

#[test]
fn a_package_file_names_package_and_version() {
    let good = tags(&[("Package", "apt"), ("Version", "2")]);
    let deb = DebFile::new("/tmp/apt.deb".to_string(), good).unwrap();
    assert_eq!(deb.name(), "apt");
    assert_eq!(deb.version(), "2");
    let bad = tags(&[("Package", "apt")]);
    assert_eq!(
        DebFile::new("x".to_string(), bad).unwrap_err().message,
        "Not a valid DebFile"
    );
}

#[test]
fn tags_and_their_defaults() {
    let section = tags(&[("A", "1"), ("A", "2")]);
    assert_eq!(section.get("A"), Some(&"1".to_string()));
    assert_eq!(section.get_default("B", "x"), "x");
}
