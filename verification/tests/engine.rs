//! End-to-end checks of the decoder, the resolver and the symbol linker,
//! over hand-built ELF images in both widths and both byte orders.

use binary_walkr::dependencies::{analyze_one_dependency, resolve_dependencies, FileTable, WorkQueue};
use binary_walkr::link_graph::analyze_image;
use binary_walkr::search_path::{search_path, split_search_paths};
use binary_walkr::summarize::{summarize_bytes, BinaryType, ElfSummary, WalkError};

fn push_word(v: &mut Vec<u8>, val: u64, n: usize, little: bool) {
    let mut bytes = [0u8; 8];
    for i in 0..8 {
        bytes[i] = ((val >> (8 * i)) & 0xff) as u8;
    }
    if little {
        for i in 0..n {
            v.push(bytes[i]);
        }
    } else {
        for i in (0..n).rev() {
            v.push(bytes[i]);
        }
    }
}

/// Builds a dynamically linked ELF image with the given needed names,
/// imported symbol names, and exported symbols (name, address, size).
fn mk_elf_custom(
    is64: bool,
    little: bool,
    needed: &[&[u8]],
    imports: &[&str],
    exports: &[(&str, u64, u64)],
    dynstr_secname: &[u8],
    dynsym_secname: &[u8],
) -> Vec<u8> {
    // the dynamic string table
    let mut dynstr: Vec<u8> = vec![0];
    let mut needed_offs: Vec<u64> = Vec::new();
    for n in needed {
        needed_offs.push(dynstr.len() as u64);
        dynstr.extend_from_slice(n);
        dynstr.push(0);
    }
    let mut sym_offs: Vec<u64> = Vec::new();
    for n in imports.iter().map(|s| *s).chain(exports.iter().map(|e| e.0)) {
        sym_offs.push(dynstr.len() as u64);
        dynstr.extend_from_slice(n.as_bytes());
        dynstr.push(0);
    }
    // the dynamic symbol table
    let symsz = if is64 { 24 } else { 16 };
    let mut dynsym: Vec<u8> = vec![0; symsz];
    let n_imports = imports.len();
    for (k, off) in sym_offs.iter().enumerate() {
        let import = k < n_imports;
        let shndx: u64 = if import { 0 } else { 1 };
        let (value, size) = if import {
            (0u64, 0u64)
        } else {
            let e = &exports[k - n_imports];
            (e.1, e.2)
        };
        let info: u64 = 0x12; // GLOBAL, FUNC
        if is64 {
            push_word(&mut dynsym, *off, 4, little);
            push_word(&mut dynsym, info, 1, little);
            push_word(&mut dynsym, 0, 1, little);
            push_word(&mut dynsym, shndx, 2, little);
            push_word(&mut dynsym, value, 8, little);
            push_word(&mut dynsym, size, 8, little);
        } else {
            push_word(&mut dynsym, *off, 4, little);
            push_word(&mut dynsym, value, 4, little);
            push_word(&mut dynsym, size, 4, little);
            push_word(&mut dynsym, info, 1, little);
            push_word(&mut dynsym, 0, 1, little);
            push_word(&mut dynsym, shndx, 2, little);
        }
    }
    // the dynamic section
    let half = if is64 { 8 } else { 4 };
    let mut dynamic: Vec<u8> = Vec::new();
    for off in &needed_offs {
        push_word(&mut dynamic, 1, half, little); // DT_NEEDED
        push_word(&mut dynamic, *off, half, little);
    }
    push_word(&mut dynamic, 0, half, little); // DT_NULL
    push_word(&mut dynamic, 0, half, little);
    // the section-header string table
    let mut shstrtab: Vec<u8> = vec![0];
    let dynstr_name_off = shstrtab.len() as u64;
    shstrtab.extend_from_slice(dynstr_secname);
    shstrtab.push(0);
    let dynsym_name_off = shstrtab.len() as u64;
    shstrtab.extend_from_slice(dynsym_secname);
    shstrtab.push(0);
    let shstr_name_off = shstrtab.len() as u64;
    shstrtab.extend_from_slice(b".shstrtab");
    shstrtab.push(0);
    // layout
    let ehsize: u64 = if is64 { 64 } else { 52 };
    let off_dynstr = ehsize;
    let off_dynsym = off_dynstr + dynstr.len() as u64;
    let off_dynamic = off_dynsym + dynsym.len() as u64;
    let off_shstr = off_dynamic + dynamic.len() as u64;
    let shoff = off_shstr + shstrtab.len() as u64;
    // the file header
    let mut v: Vec<u8> = vec![
        0x7f,
        b'E',
        b'L',
        b'F',
        if is64 { 2 } else { 1 },
        if little { 1 } else { 2 },
        1,
        0,
        0,
        0,
        0,
        0,
        0,
        0,
        0,
        0,
    ];
    push_word(&mut v, 2, 2, little); // e_type
    push_word(&mut v, 0x3e, 2, little); // e_machine
    push_word(&mut v, 1, 4, little); // e_version
    let addr = if is64 { 8 } else { 4 };
    push_word(&mut v, 0, addr, little); // e_entry
    push_word(&mut v, 0, addr, little); // e_phoff
    push_word(&mut v, shoff, addr, little); // e_shoff
    push_word(&mut v, 0, 4, little); // e_flags
    push_word(&mut v, ehsize, 2, little); // e_ehsize
    push_word(&mut v, 0, 2, little); // e_phentsize
    push_word(&mut v, 0, 2, little); // e_phnum
    push_word(&mut v, if is64 { 64 } else { 40 }, 2, little); // e_shentsize
    push_word(&mut v, 5, 2, little); // e_shnum
    push_word(&mut v, 4, 2, little); // e_shstrndx
    assert_eq!(v.len() as u64, ehsize);
    v.extend_from_slice(&dynstr);
    v.extend_from_slice(&dynsym);
    v.extend_from_slice(&dynamic);
    v.extend_from_slice(&shstrtab);
    // section headers
    let mut sh = |v: &mut Vec<u8>, name: u64, ty: u64, off: u64, size: u64| {
        push_word(v, name, 4, little);
        push_word(v, ty, 4, little);
        if is64 {
            push_word(v, 0, 8, little); // flags
            push_word(v, 0, 8, little); // addr
            push_word(v, off, 8, little);
            push_word(v, size, 8, little);
            push_word(v, 0, 4, little); // link
            push_word(v, 0, 4, little); // info
            push_word(v, 1, 8, little); // addralign
            push_word(v, 0, 8, little); // entsize
        } else {
            push_word(v, 0, 4, little);
            push_word(v, 0, 4, little);
            push_word(v, off, 4, little);
            push_word(v, size, 4, little);
            push_word(v, 0, 4, little);
            push_word(v, 0, 4, little);
            push_word(v, 1, 4, little);
            push_word(v, 0, 4, little);
        }
    };
    sh(&mut v, 0, 0, 0, 0); // the null section
    sh(&mut v, dynstr_name_off, 3, off_dynstr, dynstr.len() as u64);
    sh(&mut v, dynsym_name_off, 11, off_dynsym, dynsym.len() as u64);
    sh(&mut v, 0, 6, off_dynamic, dynamic.len() as u64);
    sh(&mut v, shstr_name_off, 3, off_shstr, shstrtab.len() as u64);
    v
}

fn mk_elf(
    is64: bool,
    little: bool,
    needed: &[&str],
    imports: &[&str],
    exports: &[(&str, u64, u64)],
) -> Vec<u8> {
    let raw: Vec<&[u8]> = needed.iter().map(|s| s.as_bytes()).collect();
    mk_elf_custom(is64, little, &raw, imports, exports, b".dynstr", b".dynsym")
}

/// A static image: a bare file header with no section headers at all.
fn mk_static_elf(is64: bool, little: bool) -> Vec<u8> {
    let mut v: Vec<u8> = vec![
        0x7f,
        b'E',
        b'L',
        b'F',
        if is64 { 2 } else { 1 },
        if little { 1 } else { 2 },
        1,
        0,
        0,
        0,
        0,
        0,
        0,
        0,
        0,
        0,
    ];
    let ehsize: u64 = if is64 { 64 } else { 52 };
    let addr = if is64 { 8 } else { 4 };
    push_word(&mut v, 2, 2, little);
    push_word(&mut v, 0x3e, 2, little);
    push_word(&mut v, 1, 4, little);
    push_word(&mut v, 0, addr, little);
    push_word(&mut v, 0, addr, little);
    push_word(&mut v, 0, addr, little);
    push_word(&mut v, 0, 4, little);
    push_word(&mut v, ehsize, 2, little);
    push_word(&mut v, 0, 2, little);
    push_word(&mut v, 0, 2, little);
    push_word(&mut v, 0, 2, little);
    push_word(&mut v, 0, 2, little);
    push_word(&mut v, 0, 2, little);
    v
}

fn dyn_data(s: &ElfSummary) -> &binary_walkr::summarize::DynamicData {
    match &s.binary_type {
        BinaryType::Dynamic(d) => d,
        BinaryType::Static => panic!("expected a dynamic image"),
    }
}

fn keys(m: &binary_walkr::depmap::DependencyMap) -> Vec<String> {
    m.entries.iter().map(|e| e.0.clone()).collect()
}

#[test]
fn decodes_needed_imports_exports() {
    let bytes = mk_elf(
        true,
        true,
        &["libc.so.6"],
        &["printf", "malloc"],
        &[("my_export", 0x1000, 24)],
    );
    let s = summarize_bytes(&bytes, "/bin/hello".to_string()).unwrap();
    assert_eq!(s.bit_size, 64);
    assert_eq!(s.filename, "/bin/hello");
    let d = dyn_data(&s);
    assert_eq!(d.deps, vec!["libc.so.6".to_string()]);
    let import_names: Vec<&str> = d.dynamic_symbol_refs.iter().map(|r| r.symbol.name.as_str()).collect();
    assert_eq!(import_names, vec!["printf", "malloc"]);
    assert_eq!(d.provided_dynamic_symbols.len(), 1);
    assert_eq!(d.provided_dynamic_symbols[0].symbol.name, "my_export");
    assert_eq!(d.provided_dynamic_symbols[0].address, 0x1000);
    assert_eq!(d.provided_dynamic_symbols[0].size, 24);
}

#[test]
fn not_an_elf_is_root_fatal() {
    let bytes: Vec<u8> = b"just some plain text, certainly not an ELF image".to_vec();
    match summarize_bytes(&bytes, "/tmp/x".to_string()) {
        Err(WalkError::NotElf) => {},
        other => panic!("expected NotElf, got {:?}", other.map(|_| ())),
    }
    let files = FileTable::new();
    let sp: Vec<String> = Vec::new();
    assert!(analyze_image(&bytes, "/tmp/x".to_string(), &sp, &files).is_err());
}

#[test]
fn missing_dynstr_is_a_decode_fault() {
    let bytes = mk_elf_custom(true, true, &[b"libc.so.6"], &[], &[], b".notstr", b".dynsym");
    match summarize_bytes(&bytes, "x".to_string()) {
        Err(WalkError::MissingExpectedDynstrSection) => {},
        other => panic!("expected MissingExpectedDynstrSection, got {:?}", other.map(|_| ())),
    }
}

#[test]
fn missing_dynsym_is_a_decode_fault() {
    let bytes = mk_elf_custom(true, true, &[b"libc.so.6"], &[], &[], b".dynstr", b".notsym");
    match summarize_bytes(&bytes, "x".to_string()) {
        Err(WalkError::MissingExpectedDynsymSection) => {},
        other => panic!("expected MissingExpectedDynsymSection, got {:?}", other.map(|_| ())),
    }
}

#[test]
fn invalid_utf8_needed_name_is_a_decode_fault() {
    let bytes = mk_elf_custom(true, true, &[b"\xff\xfe"], &[], &[], b".dynstr", b".dynsym");
    match summarize_bytes(&bytes, "x".to_string()) {
        Err(WalkError::NeededNameNotUtf8) => {},
        other => panic!("expected NeededNameNotUtf8, got {:?}", other.map(|_| ())),
    }
}

#[test]
fn truncated_image_is_malformed() {
    let mut bytes = mk_elf(true, true, &["libc.so.6"], &["printf"], &[]);
    bytes.truncate(bytes.len() - 40); // cut into the section headers
    match summarize_bytes(&bytes, "x".to_string()) {
        Err(WalkError::MalformedImage) => {},
        other => panic!("expected MalformedImage, got {:?}", other.map(|_| ())),
    }
}

#[test]
fn basic_resolution_with_provider() {
    let root = mk_elf(true, true, &["libc.so.6"], &["printf"], &[]);
    let libc = mk_elf(true, true, &[], &[], &[("printf", 0x4000, 100)]);
    let mut files = FileTable::new();
    files.add("/lib/x86_64-linux-gnu/libc.so.6".to_string(), libc);
    let sp = vec!["/lib/x86_64-linux-gnu".to_string()];
    let g = analyze_image(&root, "/bin/hello".to_string(), &sp, &files).unwrap();
    assert_eq!(keys(&g.dependencies), vec!["libc.so.6".to_string()]);
    let entry = &g.dependencies.entries[0];
    let summ = entry.1.as_ref().expect("libc should resolve");
    assert_eq!(summ.filename, "/lib/x86_64-linux-gnu/libc.so.6");
    assert_eq!(g.provider_of.entries.len(), 1);
    assert_eq!(g.provider_of.entries[0].0.name, "printf");
    assert_eq!(g.provider_of.entries[0].0.version, None);
    assert_eq!(g.provider_of.entries[0].1, "/lib/x86_64-linux-gnu/libc.so.6");
}

#[test]
fn diamond_dependency_appears_once_sorted() {
    let root = mk_elf(true, true, &["libA.so", "libB.so"], &[], &[]);
    let lib_a = mk_elf(true, true, &["libB.so"], &[], &[]);
    let lib_b = mk_elf(true, true, &[], &[], &[]);
    let mut files = FileTable::new();
    files.add("/lib/libA.so".to_string(), lib_a);
    files.add("/lib/libB.so".to_string(), lib_b);
    let sp = vec!["/lib".to_string()];
    let g = analyze_image(&root, "/bin/app".to_string(), &sp, &files).unwrap();
    assert_eq!(keys(&g.dependencies), vec!["libA.so".to_string(), "libB.so".to_string()]);
}

#[test]
fn duplicate_needed_name_appears_once() {
    let root = mk_elf(true, true, &["libA.so", "libA.so"], &[], &[]);
    let lib_a = mk_elf(true, true, &[], &[], &[]);
    let mut files = FileTable::new();
    files.add("/lib/libA.so".to_string(), lib_a);
    let sp = vec!["/lib".to_string()];
    let g = analyze_image(&root, "/bin/app".to_string(), &sp, &files).unwrap();
    assert_eq!(keys(&g.dependencies), vec!["libA.so".to_string()]);
}

#[test]
fn self_loop_terminates() {
    let root = mk_elf(true, true, &["libA.so"], &[], &[]);
    let lib_a = mk_elf(true, true, &["libA.so"], &[], &[]);
    let mut files = FileTable::new();
    files.add("/lib/libA.so".to_string(), lib_a);
    let sp = vec!["/lib".to_string()];
    let g = analyze_image(&root, "/bin/app".to_string(), &sp, &files).unwrap();
    assert_eq!(keys(&g.dependencies), vec!["libA.so".to_string()]);
}

#[test]
fn cycle_terminates_with_both_keys() {
    let root = mk_elf(true, true, &["libA.so"], &[], &[]);
    let lib_a = mk_elf(true, true, &["libB.so"], &[], &[]);
    let lib_b = mk_elf(true, true, &["libA.so"], &[], &[]);
    let mut files = FileTable::new();
    files.add("/lib/libA.so".to_string(), lib_a);
    files.add("/lib/libB.so".to_string(), lib_b);
    let sp = vec!["/lib".to_string()];
    let g = analyze_image(&root, "/bin/app".to_string(), &sp, &files).unwrap();
    assert_eq!(keys(&g.dependencies), vec!["libA.so".to_string(), "libB.so".to_string()]);
}

#[test]
fn soft_miss_is_recorded_as_none() {
    let root = mk_elf(true, true, &["libmissing.so"], &["wanted_symbol"], &[]);
    let files = FileTable::new();
    let sp = vec!["/lib".to_string(), "/usr/lib".to_string()];
    let g = analyze_image(&root, "/bin/app".to_string(), &sp, &files).unwrap();
    assert_eq!(keys(&g.dependencies), vec!["libmissing.so".to_string()]);
    assert!(g.dependencies.entries[0].1.is_none());
    assert_eq!(g.provider_of.entries.len(), 0);
}

#[test]
fn first_search_path_hit_wins() {
    let lib1 = mk_elf(true, true, &[], &[], &[("one", 1, 1)]);
    let lib2 = mk_elf(true, true, &[], &[], &[("two", 2, 2)]);
    let mut files = FileTable::new();
    files.add("/d1/libN.so".to_string(), lib1);
    files.add("/d2/libN.so".to_string(), lib2);
    let sp = vec!["/d1".to_string(), "/d2".to_string()];
    let s = analyze_one_dependency(&sp, &"libN.so".to_string(), &files).unwrap();
    assert_eq!(s.filename, "/d1/libN.so");
}

#[test]
fn unreadable_first_hit_falls_through() {
    let mut files = FileTable::new();
    files.add("/d1/libN.so".to_string(), b"not an elf".to_vec());
    files.add("/d2/libN.so".to_string(), mk_elf(true, true, &[], &[], &[]));
    let sp = vec!["/d1".to_string(), "/d2".to_string()];
    let s = analyze_one_dependency(&sp, &"libN.so".to_string(), &files).unwrap();
    assert_eq!(s.filename, "/d2/libN.so");
}

#[test]
fn tie_break_prefers_later_dependency() {
    let root = mk_elf(true, true, &["libX.so", "libY.so"], &["foo"], &[]);
    let lib_x = mk_elf(true, true, &[], &[], &[("foo", 0x10, 1)]);
    let lib_y = mk_elf(true, true, &[], &[], &[("foo", 0x20, 1)]);
    let mut files = FileTable::new();
    files.add("/lib/libX.so".to_string(), lib_x);
    files.add("/lib/libY.so".to_string(), lib_y);
    let sp = vec!["/lib".to_string()];
    let g = analyze_image(&root, "/bin/app".to_string(), &sp, &files).unwrap();
    assert_eq!(g.provider_of.entries.len(), 1);
    assert_eq!(g.provider_of.entries[0].0.name, "foo");
    assert_eq!(g.provider_of.entries[0].1, "/lib/libY.so");
}

#[test]
fn static_root_yields_empty_graph() {
    for &(is64, little) in &[(true, true), (true, false), (false, true), (false, false)] {
        let root = mk_static_elf(is64, little);
        let files = FileTable::new();
        let sp = vec!["/lib".to_string()];
        let g = analyze_image(&root, "/bin/static".to_string(), &sp, &files).unwrap();
        assert_eq!(g.dependencies.entries.len(), 0);
        assert_eq!(g.provider_of.entries.len(), 0);
    }
}

#[test]
fn endianness_round_trip() {
    let le = mk_elf(true, true, &["libc.so.6"], &["printf"], &[("exported", 7, 8)]);
    let be = mk_elf(true, false, &["libc.so.6"], &["printf"], &[("exported", 7, 8)]);
    let sl = summarize_bytes(&le, "x".to_string()).unwrap();
    let sb = summarize_bytes(&be, "x".to_string()).unwrap();
    let dl = dyn_data(&sl);
    let db = dyn_data(&sb);
    assert_eq!(dl.deps, db.deps);
    let nl: Vec<&str> = dl.dynamic_symbol_refs.iter().map(|r| r.symbol.name.as_str()).collect();
    let nb: Vec<&str> = db.dynamic_symbol_refs.iter().map(|r| r.symbol.name.as_str()).collect();
    assert_eq!(nl, nb);
    let el: Vec<&str> = dl.provided_dynamic_symbols.iter().map(|r| r.symbol.name.as_str()).collect();
    let eb: Vec<&str> = db.provided_dynamic_symbols.iter().map(|r| r.symbol.name.as_str()).collect();
    assert_eq!(el, eb);
}

#[test]
fn bit_width_round_trip() {
    let w64 = mk_elf(true, true, &["libm.so.6"], &["cos", "sin"], &[("tan", 3, 4)]);
    let w32 = mk_elf(false, true, &["libm.so.6"], &["cos", "sin"], &[("tan", 3, 4)]);
    let s64 = summarize_bytes(&w64, "x".to_string()).unwrap();
    let s32 = summarize_bytes(&w32, "x".to_string()).unwrap();
    assert_eq!(s64.bit_size, 64);
    assert_eq!(s32.bit_size, 32);
    let d64 = dyn_data(&s64);
    let d32 = dyn_data(&s32);
    assert_eq!(d64.deps, d32.deps);
    let n64: Vec<&str> = d64.dynamic_symbol_refs.iter().map(|r| r.symbol.name.as_str()).collect();
    let n32: Vec<&str> = d32.dynamic_symbol_refs.iter().map(|r| r.symbol.name.as_str()).collect();
    assert_eq!(n64, n32);
    let e64: Vec<&str> = d64.provided_dynamic_symbols.iter().map(|r| r.symbol.name.as_str()).collect();
    let e32: Vec<&str> = d32.provided_dynamic_symbols.iter().map(|r| r.symbol.name.as_str()).collect();
    assert_eq!(e64, e32);
}

#[test]
fn resolve_dependencies_matches_work_queue_walk() {
    // the incremental queue walk that a caller over a real filesystem
    // performs gives the same outcomes as the one-call resolver
    let root = mk_elf(true, true, &["libA.so"], &[], &[]);
    let lib_a = mk_elf(true, true, &["libB.so"], &[], &[]);
    let lib_b = mk_elf(true, true, &[], &[], &[]);
    let mut files = FileTable::new();
    files.add("/lib/libA.so".to_string(), lib_a);
    files.add("/lib/libB.so".to_string(), lib_b);
    let sp = vec!["/lib".to_string()];
    let root_summ = summarize_bytes(&root, "/bin/app".to_string()).unwrap();
    let direct = resolve_dependencies(&sp, &root_summ, &files);

    let mut queue = WorkQueue::new();
    let mut walked: Vec<String> = Vec::new();
    queue.add_dependencies(&root_summ);
    while let Some(name) = queue.take_work() {
        walked.push(name.clone());
        if let Ok(summ) = analyze_one_dependency(&sp, &name, &files) {
            queue.add_dependencies(&summ);
        }
    }
    walked.sort();
    assert_eq!(keys(&direct), walked);
}

#[test]
fn search_path_orders_env_then_defaults() {
    let ld = Some("/opt/a:/opt/b".to_string());
    let root = summarize_bytes(&mk_static_elf(true, true), "/bin/x".to_string()).unwrap();
    let dirs = search_path(&"/sysroot".to_string(), &ld, &root);
    assert_eq!(
        dirs,
        vec![
            "/opt/a".to_string(),
            "/opt/b".to_string(),
            "/sysroot/lib".to_string(),
            "/sysroot/lib64".to_string(),
            "/sysroot/usr/lib".to_string(),
            "/sysroot/usr/lib64".to_string(),
        ]
    );
    let none_dirs = search_path(&"/".to_string(), &None, &root);
    assert_eq!(
        none_dirs,
        vec![
            "/lib".to_string(),
            "/lib64".to_string(),
            "/usr/lib".to_string(),
            "/usr/lib64".to_string(),
        ]
    );
    let empty = split_search_paths(&"".to_string());
    assert_eq!(empty, Vec::<String>::new());
    let pieces = split_search_paths(&"a::b".to_string());
    assert_eq!(pieces, vec!["a".to_string(), "".to_string(), "b".to_string()]);
}

#[test]
fn static_app_data_carries_engine_output() {
    let root = mk_elf(true, true, &["libc.so.6"], &["printf"], &[]);
    let libc = mk_elf(true, true, &[], &[], &[("printf", 0x4000, 100)]);
    let mut files = FileTable::new();
    files.add("/lib/libc.so.6".to_string(), libc);
    let sp = vec!["/lib".to_string()];
    let g = analyze_image(&root, "/bin/hello".to_string(), &sp, &files).unwrap();
    let data = binary_walkr::ui_state::StaticAppData {
        title: "binary-walkr".to_string(),
        elf: g.root,
        resolved_dependencies: g.dependencies,
        symbol_resolutions: g.provider_of,
    };
    assert_eq!(data.title, "binary-walkr");
    assert_eq!(data.elf.filename, "/bin/hello");
    assert_eq!(data.resolved_dependencies.entries.len(), 1);
    assert_eq!(data.symbol_resolutions.entries.len(), 1);
    assert_eq!(data.symbol_resolutions.entries[0].1, "/lib/libc.so.6");
}
