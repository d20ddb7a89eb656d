use rallo::{
    determine_category, guess_category, demangle_name, next_symbol_address,
    strip_rust_hash_suffix, usize_to_i64, Category, SymbolKey,
};

#[test]
fn hash_suffix_is_stripped() {
    assert_eq!(strip_rust_hash_suffix("core::fmt::write::h0123456789abcdef"), "core::fmt::write");
    assert_eq!(strip_rust_hash_suffix("a::b::hABCDEF"), "a::b");
}

#[test]
fn names_without_hash_are_kept() {
    assert_eq!(strip_rust_hash_suffix("main"), "main");
    assert_eq!(strip_rust_hash_suffix("a::hello"), "a::hello");
    assert_eq!(strip_rust_hash_suffix("a::h"), "a::h");
    assert_eq!(strip_rust_hash_suffix("a::h12::x"), "a::h12::x");
    assert_eq!(strip_rust_hash_suffix(""), "");
}

#[test]
fn mangled_name_is_demangled_and_stripped() {
    assert_eq!(
        demangle_name(Some("_ZN4core3fmt5write17h0123456789abcdefE")),
        "core::fmt::write"
    );
    assert_eq!(demangle_name(Some("plain_name")), "plain_name");
    assert_eq!(demangle_name(None), "");
}

#[test]
fn symbol_address_from_line_and_column() {
    let mut next: u32 = 1;
    assert_eq!(next_symbol_address(&mut next, Some(10), Some(5)), 10_005);
    assert_eq!(next_symbol_address(&mut next, Some(10), Some(5000)), 10_999);
    assert_eq!(next_symbol_address(&mut next, Some(7), None), 7_000);
    assert_eq!(next, 1);
}

#[test]
fn symbol_address_falls_back_to_counter() {
    let mut next: u32 = 1;
    assert_eq!(next_symbol_address(&mut next, None, Some(3)), 1);
    assert_eq!(next_symbol_address(&mut next, Some(u32::MAX), None), 2);
    assert_eq!(next, 3);
    let mut top: u32 = u32::MAX;
    assert_eq!(next_symbol_address(&mut top, None, None), u32::MAX);
    assert_eq!(top, u32::MAX);
}

#[test]
fn symbol_address_saturates() {
    let mut next: u32 = 1;
    // 4294967 * 1000 fits in a u32, the added column does not
    assert_eq!(next_symbol_address(&mut next, Some(4_294_967), Some(999)), u32::MAX);
}

#[test]
fn sizes_saturate_as_sample_weights() {
    assert_eq!(usize_to_i64(1024), 1024);
    assert_eq!(usize_to_i64(usize::MAX), i64::MAX);
}

#[test]
fn symbol_key_keeps_its_parts() {
    let k = SymbolKey::new("f", Some(3), None);
    assert_eq!(k, SymbolKey { name: "f".to_string(), lineno: Some(3), colno: None });
}

#[test]
fn guessed_categories() {
    let cwd = "/work/project";
    assert_eq!(guess_category(cwd, "/rustc/abc/library/core/src/fmt.rs"), Category::RustC);
    assert_eq!(guess_category(cwd, "/home/u/.rustup/lib/rustlib/src/x.rs"), Category::RustStdLib);
    assert_eq!(guess_category(cwd, "/home/u/.cargo/registry/src/dep/lib.rs"), Category::Deps);
    assert_eq!(guess_category(cwd, "/work/project/src/main.rs"), Category::Application);
    assert_eq!(guess_category(cwd, "foo.rs"), Category::Unknown);
}

#[test]
fn determined_categories() {
    let cwd = "/work/project";
    assert_eq!(determine_category(cwd, None), Category::Unknown);
    assert_eq!(determine_category(cwd, Some("C:\\rustc\\abc\\x.rs")), Category::RustC);
    assert_eq!(determine_category(cwd, Some("/work/project/src/a.rs")), Category::Application);
    // a sibling directory that shares the text prefix is not under cwd
    assert_eq!(determine_category(cwd, Some("/work/project2/src/a.rs")), Category::Unknown);
    assert_eq!(guess_category(cwd, "/work/project2/src/a.rs"), Category::Application);
}
