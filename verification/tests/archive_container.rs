use archive_fingerprint::{archive_members, expected_archive_message};

fn ar_header(name: &str, size: usize) -> Vec<u8> {
    let mut h = Vec::new();
    h.extend_from_slice(format!("{:<16}", name).as_bytes());
    h.extend_from_slice(format!("{:<12}", 0).as_bytes());
    h.extend_from_slice(format!("{:<6}", 0).as_bytes());
    h.extend_from_slice(format!("{:<6}", 0).as_bytes());
    h.extend_from_slice(format!("{:<8}", "644").as_bytes());
    h.extend_from_slice(format!("{:<10}", size).as_bytes());
    h.extend_from_slice(b"`\n");
    h
}

fn ar_with(members: &[(&str, &[u8])]) -> Vec<u8> {
    let mut data = b"!<arch>\n".to_vec();
    for (name, content) in members {
        data.extend_from_slice(&ar_header(name, content.len()));
        data.extend_from_slice(content);
        if content.len() % 2 == 1 {
            data.push(b'\n');
        }
    }
    data
}

#[test]
fn archive_listing_and_extraction() {
    let data = ar_with(&[("beta.o/", b"BBBB"), ("alpha.o/", b"AAAAAA")]);
    let members = archive_members(&data).unwrap();
    assert_eq!(members.len(), 2);
    let names: Vec<&str> = members.iter().map(|m| m.name.as_str()).collect();
    assert!(names.contains(&"alpha.o"));
    assert!(names.contains(&"beta.o"));
    for m in &members {
        if m.name == "alpha.o" {
            assert_eq!(m.data, b"AAAAAA".to_vec());
        }
        if m.name == "beta.o" {
            assert_eq!(m.data, b"BBBB".to_vec());
        }
    }
}

#[test]
fn non_archive_input_is_refused() {
    assert!(archive_members(&b"\x7fELF not an archive".to_vec()).is_none());
    assert!(archive_members(&Vec::new()).is_none());
    assert_eq!(expected_archive_message(), "Expected archive file.");
}

#[test]
fn member_listing_ignores_physical_order() {
    let d1 = ar_with(&[("beta.o/", b"BBBB"), ("alpha.o/", b"AAAAAA")]);
    let d2 = ar_with(&[("alpha.o/", b"AAAAAA"), ("beta.o/", b"BBBB")]);
    let m1: Vec<(String, Vec<u8>)> = archive_members(&d1)
        .unwrap()
        .into_iter()
        .map(|m| (m.name, m.data))
        .collect();
    let m2: Vec<(String, Vec<u8>)> = archive_members(&d2)
        .unwrap()
        .into_iter()
        .map(|m| (m.name, m.data))
        .collect();
    assert_eq!(m1, m2);
}
