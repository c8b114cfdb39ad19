use archive_fingerprint::{
    fingerprint_object, fingerprint_members, object_well_formed, records_well_formed, Backend,
    FingerprintError, MemberRecord, ParsedObject, Relocation, Section, SectionKind, Symbol,
};

fn content_section(name: &str, bytes: Vec<u8>) -> Section {
    Section { name: name.to_string(), kind: SectionKind::Content, bytes, size: 0 }
}

fn zero_fill_section(name: &str, size: u64) -> Section {
    Section { name: name.to_string(), kind: SectionKind::ZeroFill, bytes: Vec::new(), size }
}

fn symbol(name: &str, value: u64, size: u64, imported: bool) -> Symbol {
    Symbol { name: name.to_string(), value, size, imported }
}

fn single_content_object() -> ParsedObject {
    ParsedObject {
        sections: vec![content_section(".text", vec![0u8; 8])],
        symbols: vec![symbol("foo", 0, 8, false)],
        reloc_groups: Vec::new(),
    }
}

#[test]
fn single_content_section_digest() {
    let obj = single_content_object();
    let d1 = fingerprint_object(&obj, Backend::Crypto).unwrap();
    assert_eq!(d1, "e14ff580e2d70cb59515a2fca0730057743eada3");
    let d2 = fingerprint_object(&obj, Backend::Crypto).unwrap();
    assert_eq!(d1, d2);
}

#[test]
fn zero_fill_digest_depends_on_declared_size_only() {
    let obj = ParsedObject {
        sections: vec![zero_fill_section(".bss", 16)],
        symbols: vec![symbol("foo", 0, 8, false)],
        reloc_groups: Vec::new(),
    };
    let d = fingerprint_object(&obj, Backend::Crypto).unwrap();
    assert_eq!(d, "9195f3fd3c6ed3659714625bfd253d16b2571d19");
    assert_ne!(d, fingerprint_object(&single_content_object(), Backend::Crypto).unwrap());

    let mut backed = ParsedObject {
        sections: vec![zero_fill_section(".bss", 16)],
        symbols: vec![symbol("foo", 0, 8, false)],
        reloc_groups: Vec::new(),
    };
    backed.sections[0].bytes = vec![0xAAu8; 32];
    assert_eq!(d, fingerprint_object(&backed, Backend::Crypto).unwrap());

    let mut other_size = ParsedObject {
        sections: vec![zero_fill_section(".bss", 17)],
        symbols: vec![symbol("foo", 0, 8, false)],
        reloc_groups: Vec::new(),
    };
    other_size.sections[0].bytes = Vec::new();
    assert_ne!(d, fingerprint_object(&other_size, Backend::Crypto).unwrap());
}

#[test]
fn mixed_members_fingerprint_objects_only() {
    let obj = single_content_object();
    let d = fingerprint_object(&obj, Backend::Crypto).unwrap();
    let records = vec![
        MemberRecord { name: "notes.txt".to_string(), object: None },
        MemberRecord { name: "a.o".to_string(), object: Some(single_content_object()) },
    ];
    let out = fingerprint_members(&records, Backend::Crypto).unwrap();
    assert_eq!(out, format!("a.o\n{}\n", d));
}

#[test]
fn member_blocks_come_in_name_order() {
    let records1 = vec![
        MemberRecord { name: "b.o".to_string(), object: Some(single_content_object()) },
        MemberRecord { name: "a.o".to_string(), object: Some(single_content_object()) },
    ];
    let records2 = vec![
        MemberRecord { name: "a.o".to_string(), object: Some(single_content_object()) },
        MemberRecord { name: "b.o".to_string(), object: Some(single_content_object()) },
    ];
    let out1 = fingerprint_members(&records1, Backend::Crypto).unwrap();
    let out2 = fingerprint_members(&records2, Backend::Crypto).unwrap();
    assert_eq!(out1, out2);
    let d = fingerprint_object(&single_content_object(), Backend::Crypto).unwrap();
    assert_eq!(out1, format!("a.o\n{}\nb.o\n{}\n", d, d));
}

#[test]
fn raw_dump_is_reproducible() {
    let obj = single_content_object();
    let r1 = fingerprint_object(&obj, Backend::Raw).unwrap();
    let r2 = fingerprint_object(&obj, Backend::Raw).unwrap();
    assert_eq!(r1, r2);
    assert_eq!(r1, ".text\n00000000 00000000\nfoo: off 0 size 8");
}

#[test]
fn raw_dump_groups_eight_words_per_line() {
    let bytes: Vec<u8> = (0u8..36).collect();
    let obj = ParsedObject {
        sections: vec![content_section(".text", bytes)],
        symbols: Vec::new(),
        reloc_groups: Vec::new(),
    };
    let r = fingerprint_object(&obj, Backend::Raw).unwrap();
    assert_eq!(
        r,
        ".text\n00010203 04050607 08090A0B 0C0D0E0F 10111213 14151617 18191A1B 1C1D1E1F\n20212223"
    );
}

#[test]
fn raw_backend_rejects_misaligned_payload() {
    let obj = ParsedObject {
        sections: vec![content_section(".text", vec![1u8, 2, 3])],
        symbols: Vec::new(),
        reloc_groups: Vec::new(),
    };
    assert_eq!(
        fingerprint_object(&obj, Backend::Raw),
        Err(FingerprintError::MisalignedPayload)
    );
    assert!(fingerprint_object(&obj, Backend::Crypto).is_ok());
}

#[test]
fn unknown_kind_on_allow_listed_section_is_fatal() {
    let obj = ParsedObject {
        sections: vec![Section {
            name: ".text".to_string(),
            kind: SectionKind::Unsupported,
            bytes: Vec::new(),
            size: 0,
        }],
        symbols: Vec::new(),
        reloc_groups: Vec::new(),
    };
    assert_eq!(
        fingerprint_object(&obj, Backend::Crypto),
        Err(FingerprintError::UnknownSectionKind)
    );
    assert_eq!(
        fingerprint_object(&obj, Backend::Raw),
        Err(FingerprintError::UnknownSectionKind)
    );
}

#[test]
fn unknown_kind_outside_allow_list_is_ignored() {
    let obj = ParsedObject {
        sections: vec![Section {
            name: ".note.gnu.property".to_string(),
            kind: SectionKind::Unsupported,
            bytes: vec![9u8; 4],
            size: 0,
        }],
        symbols: vec![symbol("foo", 0, 8, false)],
        reloc_groups: Vec::new(),
    };
    let empty_sections = ParsedObject {
        sections: Vec::new(),
        symbols: vec![symbol("foo", 0, 8, false)],
        reloc_groups: Vec::new(),
    };
    assert_eq!(
        fingerprint_object(&obj, Backend::Crypto).unwrap(),
        fingerprint_object(&empty_sections, Backend::Crypto).unwrap()
    );
}

#[test]
fn present_addend_is_fatal() {
    let obj = ParsedObject {
        sections: Vec::new(),
        symbols: vec![symbol("foo", 0, 8, false)],
        reloc_groups: vec![vec![Relocation {
            offset: 0,
            symbol: 0,
            type_code: 2,
            addend: Some(0),
        }]],
    };
    assert_eq!(
        fingerprint_object(&obj, Backend::Crypto),
        Err(FingerprintError::RelocationAddend)
    );
}

#[test]
fn relocations_are_sorted_by_offset() {
    let obj = ParsedObject {
        sections: Vec::new(),
        symbols: vec![symbol("foo", 0, 8, false), symbol("bar", 4, 4, false)],
        reloc_groups: vec![vec![
            Relocation { offset: 8, symbol: 1, type_code: 2, addend: None },
            Relocation { offset: 4, symbol: 0, type_code: 2, addend: None },
        ]],
    };
    let r = fingerprint_object(&obj, Backend::Raw).unwrap();
    assert_eq!(
        r,
        "R_MIPS_32 at 4->foo\nR_MIPS_32 at 8->bar\nbar: off 4 size 4\nfoo: off 0 size 8"
    );
}

#[test]
fn relocation_list_order_is_irrelevant() {
    let make = |relocs: Vec<Relocation>| ParsedObject {
        sections: Vec::new(),
        symbols: vec![symbol("foo", 0, 8, false), symbol("bar", 4, 4, false)],
        reloc_groups: vec![relocs],
    };
    let r1 = Relocation { offset: 8, symbol: 1, type_code: 2, addend: None };
    let r2 = Relocation { offset: 4, symbol: 0, type_code: 3, addend: None };
    let d1 = fingerprint_object(&make(vec![r1, r2]), Backend::Crypto).unwrap();
    let d2 = fingerprint_object(&make(vec![r2, r1]), Backend::Crypto).unwrap();
    assert_eq!(d1, d2);
}

#[test]
fn symbols_sort_by_name_and_imports_are_skipped() {
    let obj = ParsedObject {
        sections: Vec::new(),
        symbols: vec![
            symbol("zeta", 8, 4, false),
            symbol("external_ref", 0, 0, true),
            symbol("alpha", 0, 8, false),
        ],
        reloc_groups: Vec::new(),
    };
    let r = fingerprint_object(&obj, Backend::Raw).unwrap();
    assert_eq!(r, "alpha: off 0 size 8\nzeta: off 8 size 4");
}

#[test]
fn symbol_table_order_is_irrelevant() {
    let obj1 = ParsedObject {
        sections: Vec::new(),
        symbols: vec![symbol("zeta", 8, 4, false), symbol("alpha", 0, 8, false)],
        reloc_groups: Vec::new(),
    };
    let obj2 = ParsedObject {
        sections: Vec::new(),
        symbols: vec![symbol("alpha", 0, 8, false), symbol("zeta", 8, 4, false)],
        reloc_groups: Vec::new(),
    };
    assert_eq!(
        fingerprint_object(&obj1, Backend::Crypto).unwrap(),
        fingerprint_object(&obj2, Backend::Crypto).unwrap()
    );
}

#[test]
fn imported_symbols_do_not_affect_the_digest() {
    let base = single_content_object();
    let mut with_import = single_content_object();
    with_import.symbols.push(symbol("printf", 0, 0, true));
    assert_eq!(
        fingerprint_object(&base, Backend::Crypto).unwrap(),
        fingerprint_object(&with_import, Backend::Crypto).unwrap()
    );
}

#[test]
fn content_bytes_are_sensitive_in_allow_listed_sections_only() {
    let base = single_content_object();
    let mut flipped = single_content_object();
    flipped.sections[0].bytes[3] = 0xFF;
    assert_ne!(
        fingerprint_object(&base, Backend::Crypto).unwrap(),
        fingerprint_object(&flipped, Backend::Crypto).unwrap()
    );

    let with_comment = |payload: Vec<u8>| {
        let mut o = single_content_object();
        o.sections.push(content_section(".comment", payload));
        o
    };
    assert_eq!(
        fingerprint_object(&with_comment(vec![1, 2, 3, 4]), Backend::Crypto).unwrap(),
        fingerprint_object(&with_comment(vec![5, 6, 7, 8]), Backend::Crypto).unwrap()
    );
}

#[test]
fn decimal_fields_render_in_full() {
    let obj = ParsedObject {
        sections: Vec::new(),
        symbols: vec![symbol("big", u64::MAX, 0, false)],
        reloc_groups: Vec::new(),
    };
    let r = fingerprint_object(&obj, Backend::Raw).unwrap();
    assert_eq!(r, "big: off 18446744073709551615 size 0");
}

#[test]
fn first_stage_error_wins_over_later_stages() {
    let obj = ParsedObject {
        sections: vec![Section {
            name: ".text".to_string(),
            kind: SectionKind::Unsupported,
            bytes: Vec::new(),
            size: 0,
        }],
        symbols: vec![symbol("foo", 0, 8, false)],
        reloc_groups: vec![vec![Relocation {
            offset: 0,
            symbol: 0,
            type_code: 2,
            addend: Some(7),
        }]],
    };
    assert_eq!(
        fingerprint_object(&obj, Backend::Crypto),
        Err(FingerprintError::UnknownSectionKind)
    );
}

#[test]
fn member_error_aborts_the_whole_run() {
    let bad = ParsedObject {
        sections: Vec::new(),
        symbols: vec![symbol("foo", 0, 8, false)],
        reloc_groups: vec![vec![Relocation {
            offset: 0,
            symbol: 0,
            type_code: 2,
            addend: Some(1),
        }]],
    };
    let records = vec![
        MemberRecord { name: "a.o".to_string(), object: Some(single_content_object()) },
        MemberRecord { name: "b.o".to_string(), object: Some(bad) },
    ];
    assert_eq!(
        fingerprint_members(&records, Backend::Crypto),
        Err(FingerprintError::RelocationAddend)
    );
}

#[test]
fn well_formedness_checks_symbol_indices() {
    let good = ParsedObject {
        sections: Vec::new(),
        symbols: vec![symbol("foo", 0, 8, false)],
        reloc_groups: vec![vec![Relocation { offset: 0, symbol: 0, type_code: 2, addend: None }]],
    };
    assert!(object_well_formed(&good));
    let bad = ParsedObject {
        sections: Vec::new(),
        symbols: vec![symbol("foo", 0, 8, false)],
        reloc_groups: vec![vec![Relocation { offset: 0, symbol: 1, type_code: 2, addend: None }]],
    };
    assert!(!object_well_formed(&bad));
    let records = vec![
        MemberRecord { name: "a.o".to_string(), object: None },
        MemberRecord { name: "b.o".to_string(), object: Some(bad) },
    ];
    assert!(!records_well_formed(&records));
}

#[test]
fn empty_content_section_still_contributes_its_name() {
    let obj = ParsedObject {
        sections: vec![content_section(".rodata", Vec::new())],
        symbols: Vec::new(),
        reloc_groups: Vec::new(),
    };
    let r = fingerprint_object(&obj, Backend::Raw).unwrap();
    assert_eq!(r, ".rodata\n");
}
