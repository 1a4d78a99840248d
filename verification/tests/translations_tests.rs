use tc_manager::translations::{level_name, library_paths, parse_title, parse_zh_translations, steam_path_from_query};

#[test]
fn parse_title_basic() {
    let (hash, en) =
        parse_title("kind = combinational\ntitle = (31337_50956872142719, `XNOR Gate`)\n").unwrap();
    assert_eq!(hash, "50956872142719");
    assert_eq!(en, "XNOR Gate");
}

#[test]
fn parse_title_handles_inner_parens() {
    let (hash, en) =
        parse_title("title = (31337_16562043259074, `Arithmetic Logic Unit (ALU) 1`)\n").unwrap();
    assert_eq!(hash, "16562043259074");
    assert_eq!(en, "Arithmetic Logic Unit (ALU) 1");
}

#[test]
fn parse_title_skips_unrelated_lines() {
    let (hash, en) =
        parse_title("kind = combinational\nhint_kind = combinational\ntitle = (31337_123, `Test`)\n").unwrap();
    assert_eq!(hash, "123");
    assert_eq!(en, "Test");
}

#[test]
fn malformed_first_title_line_decides() {
    assert!(parse_title("title = 31337_1, `A`\ntitle = (31337_2, `B`)\n").is_none());
    assert!(parse_title("kind = x\n").is_none());
}

#[test]
fn read_library_paths_skips_non_path_lines() {
    let paths = library_paths("\"libraryfolders\"\n{\n\t\"0\"\n\t{\n\t\t\"path\"\t\t\"C:\\\\Steam\"\n\t}\n}\n");
    assert_eq!(paths, vec!["C:\\Steam".to_string()]);
}

#[test]
fn library_paths_keep_order_and_drop_empty_values() {
    let paths = library_paths("\"path\" \"D:\\\\A\"\n\"path\" \"\"\n  \"path\"\t\"E:\\\\B\\\\C\"\n");
    assert_eq!(paths, vec!["D:\\A".to_string(), "E:\\B\\C".to_string()]);
}

#[test]
fn parse_zh_basic() {
    let table = parse_zh_translations(
        "=== campaign/xnor/meta.txt ===\n\n$50956872142719* 同或门（XNOR）\n$16562043259074* 算术逻辑单元（ALU）1\n",
    );
    assert_eq!(
        table,
        vec![
            ("50956872142719".to_string(), "同或门（XNOR）".to_string()),
            ("16562043259074".to_string(), "算术逻辑单元（ALU）1".to_string()),
        ]
    );
}

#[test]
fn zh_first_entry_wins_and_bad_lines_are_skipped() {
    let table = parse_zh_translations("$1* one\n$1* uno\n$x1* bad\n$2*   \n$* none\n$3 no star\n");
    assert_eq!(table, vec![("1".to_string(), "one".to_string())]);
}

#[test]
fn level_name_looks_up_the_hash() {
    let table = parse_zh_translations("$50956872142719* 同或门（XNOR）\n");
    let n = level_name("50956872142719", "XNOR Gate", &table);
    assert_eq!(n.en, "XNOR Gate");
    assert_eq!(n.zh_cn, "同或门（XNOR）");
    let m = level_name("999", "Other", &table);
    assert_eq!(m.zh_cn, "");
}

#[test]
fn steam_path_is_the_third_word_of_the_last_matching_line() {
    let out = "\r\nHKEY_CURRENT_USER\\Software\\Valve\\Steam\r\n    SteamPath    REG_SZ    c:/steam\r\n\r\n";
    assert_eq!(steam_path_from_query(out).as_deref(), Some("c:/steam"));
    let two = "SteamPath REG_SZ a\nSteamPath\tREG_SZ\tb\n";
    assert_eq!(steam_path_from_query(two).as_deref(), Some("b"));
    assert_eq!(steam_path_from_query("    SteamPath    REG_SZ\n"), None);
    assert_eq!(steam_path_from_query("ERROR: not found\n"), None);
    let spaced = "    SteamPath    REG_SZ    C:\\Program Files (x86)\\Steam\n";
    assert_eq!(steam_path_from_query(spaced).as_deref(), Some("C:\\Program"));
}
