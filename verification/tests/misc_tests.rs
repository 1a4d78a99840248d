use tc_manager::mods::{hook_outcome, ModAction};
use tc_manager::schematics::schematic_names;
use tc_manager::hook::{jump_patch, trampoline_back, OriginalBytes, HOOK_SIZE};
use tc_manager::backup::{archive_entry_name, restore_relative, sort_newest_first, BackupInfo};
use tc_manager::config::{auto_backup_step, record_detected_game_dir, set_game_dir_manual, AppConfig, GameDirSource};
use tc_manager::dll::{
    compile_failure, inject_preamble_addresses, interpret_run, poll_step, run_report, template_for_level, ArenaPoll,
    CompileOutput, RunOutcome, TR_FAIL, TR_PASS,
};

fn info(name: &str, at: &str) -> BackupInfo {
    BackupInfo { name: name.to_string(), created_at: at.to_string(), size_bytes: 1 }
}

#[test]
fn archive_names_use_forward_slashes() {
    assert_eq!(archive_entry_name("Turing Complete", ""), "Turing Complete");
    assert_eq!(archive_entry_name("Turing Complete", "a\\b.txt"), "Turing Complete/a/b.txt");
}

#[test]
fn restore_targets_drop_the_root() {
    assert_eq!(restore_relative("root/a/b.txt").as_deref(), Some("a\\b.txt"));
    assert_eq!(restore_relative("root/"), None);
    assert_eq!(restore_relative("root"), None);
}

#[test]
fn backups_list_newest_first_and_stably() {
    let v = vec![
        info("a", "2024-01-01T00:00:00"),
        info("b", "2024-03-01T00:00:00"),
        info("c", "2024-01-01T00:00:00"),
        info("d", "2024-02-01T00:00:00"),
    ];
    let names: Vec<String> = sort_newest_first(&v).into_iter().map(|b| b.name).collect();
    assert_eq!(names, vec!["b", "d", "a", "c"]);
}

fn config() -> AppConfig {
    AppConfig {
        save_dir: "S".to_string(),
        backup_dir: "B".to_string(),
        language: "en-US".to_string(),
        auto_backup_enabled: false,
        auto_backup_interval_min: 30,
        auto_backup_keep: 20,
        game_dir: None,
        game_dir_source: GameDirSource::default(),
    }
}

#[test]
fn game_dir_source_follows_who_set_it() {
    let mut c = config();
    assert_eq!(c.game_dir_source, GameDirSource::Auto);
    set_game_dir_manual(&mut c, "D:/TC");
    assert_eq!(c.game_dir.as_deref(), Some("D:/TC"));
    assert_eq!(c.game_dir_source, GameDirSource::Manual);
    record_detected_game_dir(&mut c, "E:/TC");
    assert_eq!(c.game_dir.as_deref(), Some("E:/TC"));
    assert_eq!(c.game_dir_source, GameDirSource::Auto);
    assert_eq!(c.save_dir, "S");
}

#[test]
fn compile_output_population() {
    let mut o = CompileOutput::zeroed();
    assert!(!o.is_populated());
    o.field_2 = 13;
    assert!(o.is_populated());
}

#[test]
fn preamble_addresses_move_to_the_arena() {
    let dsl = "var commands = Ptr 0x1000000\nvar settings = Ptr 0x1000010\nconst #S = Ptr 0x1000080";
    let out = inject_preamble_addresses(dsl, 0x7ff0000);
    assert_eq!(out, "var commands = Ptr 0x7ff0000\nvar settings = Ptr 0x7ff0010\nconst #S = Ptr 0x7ff0080");
}

#[test]
fn builtin_templates() {
    let t = template_for_level("and_gate").unwrap();
    assert_eq!(t.input_fields.len(), 2);
    assert_eq!(t.output_z_fields, vec!["result_is_z".to_string()]);
    assert!(t.test_defs.starts_with("def get_input(tick: Int) Input {"));
    assert!(t.test_defs.contains("(U64 input.a & U64 input.b)"));
    let o = template_for_level("or_gate").unwrap();
    assert!(o.test_defs.contains("(U64 input.a | U64 input.b)"));
    let n = template_for_level("not_gate").unwrap();
    assert_eq!(n.input_fields, vec![("a".to_string(), "U1".to_string())]);
    assert!(template_for_level("xor_gate").is_none());
}

#[test]
fn jump_patch_carries_the_address_little_endian() {
    let patch = jump_patch(0x1122_3344_5566_7788);
    assert_eq!(
        patch,
        vec![0xFF, 0x25, 0, 0, 0, 0, 0x88, 0x77, 0x66, 0x55, 0x44, 0x33, 0x22, 0x11]
    );
    assert_eq!(patch.len(), HOOK_SIZE);
}

#[test]
fn trampoline_runs_the_prologue_then_jumps_past_the_patch() {
    let original = OriginalBytes([1, 2, 3, 4, 5, 6, 7, 8, 9, 10, 11, 12, 13, 14]);
    let code = trampoline_back(0x1000, &original);
    assert_eq!(code.len(), 28);
    assert_eq!(&code[..14], &original.0[..]);
    assert_eq!(&code[14..20], &[0xFF, 0x25, 0, 0, 0, 0]);
    assert_eq!(&code[20..], &[0x0E, 0x10, 0, 0, 0, 0, 0, 0]);
}

#[test]
fn schematics_are_saved_dirs_and_circuit_files_sorted() {
    let entries = vec![
        ("b.circuit".to_string(), false),
        ("a".to_string(), true),
        ("notes.txt".to_string(), false),
        ("c".to_string(), true),
        ("zz.circuit".to_string(), true),
        (".circuit".to_string(), false),
    ];
    assert_eq!(schematic_names(&entries), vec!["", "a", "b", "c", "zz.circuit"]);
    assert!(schematic_names(&Vec::new()).is_empty());
}

#[test]
fn a_run_ends_when_it_stops_reaches_the_target_or_fails() {
    let poll = |cycle, test_result, running| ArenaPoll { cycle, test_result, running };
    assert_eq!(poll_step(false, poll(0, 0, 0), 2050), (false, false));
    assert_eq!(poll_step(false, poll(5, 0, 1), 2050), (true, false));
    assert_eq!(poll_step(true, poll(9, 7, 0), 2050), (true, true));
    assert_eq!(poll_step(false, poll(2050, 0, 0), 2050), (false, true));
    assert_eq!(poll_step(false, poll(3, TR_FAIL, 1), 2050), (true, true));
}

#[test]
fn only_a_written_fail_counts_as_a_fail() {
    let fail = interpret_run(TR_FAIL, 12);
    assert_eq!((fail.test_result, fail.cycles_run), (TR_FAIL, 12));
    let pass = interpret_run(41, 2050);
    assert_eq!((pass.test_result, pass.cycles_run), (TR_PASS, 2050));
}

#[test]
fn compile_status_decides_the_report() {
    let mut out = CompileOutput::zeroed();
    out.field_0 = 64;
    assert!(compile_failure(out).is_none());
    let report = run_report(out, RunOutcome { test_result: TR_PASS, cycles_run: 2050 });
    assert!(report.compiled_ok);
    assert_eq!(report.test_result, Some(TR_PASS));
    assert_eq!(report.cycles_run, 2050);
    out.field_3 = 13;
    let failed = compile_failure(out).unwrap();
    assert!(!failed.compiled_ok);
    assert_eq!(failed.error.as_deref(), Some("COMPILER_ERROR"));
    assert_eq!(failed.test_result, None);
}

#[test]
fn restore_puts_an_archived_file_back_in_place() {
    let rel = "schematics\\and_gate\\mine\\circuit.data";
    let entry = archive_entry_name("Turing Complete", rel);
    assert_eq!(entry, "Turing Complete/schematics/and_gate/mine/circuit.data");
    assert_eq!(restore_relative(&entry).as_deref(), Some(rel));
    assert_eq!(restore_relative(&archive_entry_name("Turing Complete", "levels.txt")).as_deref(), Some("levels.txt"));
}

#[test]
fn auto_backup_waits_the_interval_only_when_enabled() {
    let mut cfg = config();
    assert_eq!(auto_backup_step(&cfg), (60, false));
    cfg.auto_backup_enabled = true;
    assert_eq!(auto_backup_step(&cfg), (1800, true));
    cfg.auto_backup_interval_min = 0;
    assert_eq!(auto_backup_step(&cfg), (60, false));
    cfg.auto_backup_interval_min = 1440;
    assert_eq!(auto_backup_step(&cfg), (86400, true));
}

#[test]
fn first_answer_other_than_continue_decides() {
    let (go, stop) = (ModAction::Continue, ModAction::Abort);
    assert_eq!(hook_outcome(&[]), (go, 0));
    assert_eq!(hook_outcome(&[go, go]), (go, 2));
    assert_eq!(hook_outcome(&[go, stop, go]), (stop, 2));
    assert_eq!(hook_outcome(&[stop, stop]), (stop, 1));
}
