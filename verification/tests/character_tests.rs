use tc_manager::character::{
    add_custom_character, checked_character_name, image_upload, new_character_name, apply_character_impl, character_source, default_character, delete_from_index, image_target, is_name_taken,
    list_characters_impl, localize_name, mark_image, restore_default_impl, status_impl, validate_character_name,
    Character, CharacterKind, CharacterSource, CustomEntry, CustomIndex, DefaultManifest,
};

#[test]
fn character_name_validation() {
    assert!(validate_character_name("Steve").is_ok());
    assert!(validate_character_name("My_Cat-1").is_ok());
    assert!(validate_character_name("a").is_ok());
    assert!(validate_character_name("X9").is_ok());
    assert_eq!(validate_character_name("").unwrap_err(), "CHARACTER_NAME_EMPTY");
    assert_eq!(validate_character_name("我的猫").unwrap_err(), "CHARACTER_NAME_INVALID");
    assert_eq!(validate_character_name("My Cat").unwrap_err(), "CHARACTER_NAME_INVALID");
    assert_eq!(validate_character_name("1Cat").unwrap_err(), "CHARACTER_NAME_INVALID");
    assert_eq!(validate_character_name("-Cat").unwrap_err(), "CHARACTER_NAME_INVALID");
    assert_eq!(validate_character_name("Cat!").unwrap_err(), "CHARACTER_NAME_INVALID");
}

fn manifest(id: &str, zh: &str, en: &str) -> DefaultManifest {
    DefaultManifest {
        id: id.to_string(),
        name_zh: zh.to_string(),
        name_en: en.to_string(),
        has_neutral: true,
        has_smile: true,
    }
}

fn entry(id: &str, name: &str) -> CustomEntry {
    CustomEntry {
        id: id.to_string(),
        name: name.to_string(),
        has_neutral: false,
        has_smile: false,
        created_at: "2024-01-01T00:00:00".to_string(),
    }
}

#[test]
fn names_follow_the_locale_with_fallbacks() {
    let m = manifest("cat", "猫", "Cat");
    assert_eq!(localize_name(&m, "en-US"), "Cat");
    assert_eq!(localize_name(&m, "zh-CN"), "猫");
    assert_eq!(localize_name(&manifest("cat", "", "Cat"), "zh-CN"), "Cat");
    assert_eq!(localize_name(&manifest("cat", "猫", ""), "en-US"), "猫");
    assert_eq!(localize_name(&manifest("cat", "", ""), "en-US"), "cat");
}

#[test]
fn default_characters_need_both_manifest_and_file() {
    let mut m = manifest("cat", "猫", "Cat");
    m.has_smile = false;
    let c = default_character(&m, false, true, "en-US");
    assert_eq!(c.id, "default:cat");
    assert_eq!(c.name, "Cat");
    assert_eq!(c.kind, CharacterKind::Default);
    assert!(!c.has_neutral);
    assert!(!c.has_smile);
    assert!(c.created_at.is_none());
}

#[test]
fn listing_sorts_defaults_and_appends_customs() {
    let defaults: Vec<Character> = ["default:zed", "default:amy", "default:bob"]
        .iter()
        .map(|id| default_character(&manifest(&id[8..], "", "N"), true, true, "en-US"))
        .collect();
    let index = CustomIndex {
        active: None,
        characters: vec![entry("u2", "Zed2"), entry("u1", "Amy1")],
    };
    let list = list_characters_impl(&defaults, &index);
    let ids: Vec<&str> = list.iter().map(|c| c.id.as_str()).collect();
    assert_eq!(ids, vec!["default:amy", "default:bob", "default:zed", "custom:u2", "custom:u1"]);
    assert_eq!(list[3].kind, CharacterKind::Custom);
    assert_eq!(list[3].created_at.as_deref(), Some("2024-01-01T00:00:00"));
}

#[test]
fn ids_name_their_source() {
    assert!(matches!(character_source("default:cat").unwrap(), CharacterSource::Default(n) if n == "cat"));
    assert!(matches!(character_source("custom:u1").unwrap(), CharacterSource::Custom(u) if u == "u1"));
    assert_eq!(character_source("cat").unwrap_err(), "CHARACTER_NOT_FOUND");
}

#[test]
fn image_targets_check_in_order() {
    assert_eq!(image_target("default:cat", "bogus").unwrap_err(), "CHARACTER_READONLY");
    assert_eq!(image_target("cat", "bogus").unwrap_err(), "CHARACTER_NOT_FOUND");
    assert_eq!(image_target("custom:u1", "bogus").unwrap_err(), "CHARACTER_INVALID_SLOT");
    assert_eq!(image_target("custom:u1", "smile").unwrap(), ("u1".to_string(), "smile.png".to_string()));
}

#[test]
fn delete_removes_and_clears_active() {
    let mut index = CustomIndex {
        active: Some("custom:u1".to_string()),
        characters: vec![entry("u1", "A"), entry("u2", "B")],
    };
    assert_eq!(delete_from_index(&mut index, "default:x").unwrap_err(), "CHARACTER_READONLY");
    assert_eq!(delete_from_index(&mut index, "custom:nope").unwrap_err(), "CHARACTER_NOT_FOUND");
    assert_eq!(index.characters.len(), 2);
    assert_eq!(delete_from_index(&mut index, "custom:u1").unwrap(), "u1");
    assert_eq!(index.characters.len(), 1);
    assert_eq!(index.characters[0].id, "u2");
    assert!(index.active.is_none());
}

#[test]
fn index_updates() {
    let mut index = CustomIndex { active: None, characters: vec![entry("u1", "A")] };
    assert!(is_name_taken(&index, "A"));
    assert!(!is_name_taken(&index, "B"));
    mark_image(&mut index, "u1", "smile");
    assert!(index.characters[0].has_smile);
    assert!(!index.characters[0].has_neutral);
    apply_character_impl(&mut index, "custom:u1");
    assert_eq!(index.active.as_deref(), Some("custom:u1"));
    restore_default_impl(&mut index);
    assert!(index.active.is_none());
}

#[test]
fn status_reports_what_it_is_given() {
    let index = CustomIndex { active: Some("default:cat".to_string()), characters: vec![] };
    let s = status_impl(None, false, Some("D:/g/asset/dialogue".to_string()), false, true, &index);
    assert_eq!(s.install_dir, "");
    assert!(!s.game_available);
    assert!(s.snapshot_taken);
    assert_eq!(s.active_id.as_deref(), Some("default:cat"));
}

#[test]
fn new_names_are_trimmed_checked_and_unique() {
    let index = CustomIndex { active: None, characters: vec![entry("u1", "Cat")] };
    assert_eq!(new_character_name(&index, "  Dog \t").unwrap(), "Dog");
    assert_eq!(new_character_name(&index, " Cat ").unwrap_err(), "CHARACTER_NAME_DUP");
    assert_eq!(new_character_name(&index, "   ").unwrap_err(), "CHARACTER_NAME_EMPTY");
    assert_eq!(new_character_name(&index, "9 lives").unwrap_err(), "CHARACTER_NAME_INVALID");
}

#[test]
fn added_characters_are_listed_as_custom() {
    let mut index = CustomIndex { active: Some("custom:u1".to_string()), characters: vec![entry("u1", "Cat")] };
    let c = add_custom_character(
        &mut index,
        "u2".to_string(),
        "Dog".to_string(),
        true,
        false,
        "2024-05-06T07:08:09".to_string(),
    );
    assert_eq!(c.id, "custom:u2");
    assert_eq!(c.name, "Dog");
    assert_eq!(c.kind, CharacterKind::Custom);
    assert!(c.has_neutral && !c.has_smile);
    assert_eq!(c.created_at.as_deref(), Some("2024-05-06T07:08:09"));
    assert_eq!(index.characters.len(), 2);
    assert_eq!(index.characters[1].id, "u2");
    assert_eq!(index.active.as_deref(), Some("custom:u1"));
}

#[test]
fn uploads_are_checked_then_decoded() {
    let (uuid, file, bytes) = image_upload("custom:u1", "neutral", "aGk=").unwrap();
    assert_eq!((uuid.as_str(), file.as_str(), bytes), ("u1", "neutral.png", vec![104, 105]));
    let err = image_upload("custom:u1", "smile", "not base64!").unwrap_err();
    assert!(err.starts_with("CHARACTER_WRITE_FAILED|"));
    assert_eq!(image_upload("default:mentor", "smile", "!!").unwrap_err(), "CHARACTER_READONLY");
    assert_eq!(image_upload("custom:u1", "angry", "aGk=").unwrap_err(), "CHARACTER_INVALID_SLOT");
    assert_eq!(image_upload("u1", "smile", "aGk=").unwrap_err(), "CHARACTER_NOT_FOUND");
}

#[test]
fn typed_names_are_trimmed_then_checked() {
    assert_eq!(checked_character_name("  Robo_1 ").unwrap(), "Robo_1");
    assert_eq!(checked_character_name(" \n ").unwrap_err(), "CHARACTER_NAME_EMPTY");
    assert_eq!(checked_character_name(" Robo 1 ").unwrap_err(), "CHARACTER_NAME_INVALID");
}

#[test]
fn base64_message_is_passed_on_whole() {
    let err = image_upload("custom:u1", "smile", "ab c").unwrap_err();
    assert_eq!(err, "CHARACTER_WRITE_FAILED|Invalid symbol 32, offset 2.");
}
