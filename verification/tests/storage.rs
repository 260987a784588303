use gk2_save_core::storage::{
    archive_check_needed, backup_needed, check_retention, check_unchanged, fingerprint, library_paths, marks_backup,
    order_backups, prune, restore_action, restore_needed, sidecar_action, vdf_tokens, FileAction,
};
use sha2::Digest;

#[test]
fn steam_library_lists_name_their_folders() {
    let text = "\"libraryfolders\" { \"1\" { \"path\" \"C:\\\\Games Library\" \"apps\" { } } \"2\" { \"path\" \"/mnt/steam\" } }";
    let tokens = vdf_tokens(text);
    assert_eq!(tokens, vec!["libraryfolders", "1", "path", "C:\\Games Library", "apps", "2", "path", "/mnt/steam"]);
    assert_eq!(library_paths(&tokens), vec!["C:\\Games Library".to_string(), "/mnt/steam".to_string()]);
}

#[test]
fn unterminated_tokens_and_trailing_escapes_are_kept() {
    assert_eq!(vdf_tokens("\"open"), vec!["open".to_string()]);
    assert_eq!(vdf_tokens("\"a\\\\b\" \"c\\"), vec!["a\\b".to_string(), "c".to_string()]);
    assert_eq!(vdf_tokens("no quotes"), Vec::<String>::new());
    assert_eq!(library_paths(&vec!["path".to_string()]), Vec::<String>::new());
    assert_eq!(library_paths(&vec!["x".into(), "path".into(), "path".into(), "y".into()]), vec!["path".to_string(), "y".to_string()]);
}

#[test]
fn fingerprints_cover_the_sidecar() {
    let data = vec![4u8, 46, 5];
    let mut with_zero = data.clone();
    with_zero.push(0);
    assert_eq!(fingerprint(&data, &None), sha2::Sha256::digest(&with_zero).to_vec());
    let info = b"{\"day\":3}".to_vec();
    let mut with_info = data.clone();
    with_info.push(1);
    with_info.extend(&info);
    assert_eq!(fingerprint(&data, &Some(info.clone())), sha2::Sha256::digest(&with_info).to_vec());
    assert_ne!(fingerprint(&data, &Some(vec![])), fingerprint(&data, &None));
}

#[test]
fn changed_pairs_are_refused() {
    assert!(check_unchanged(&Some(vec![1, 2]), &Some(vec![1, 2])).is_ok());
    assert!(check_unchanged(&None, &None).is_ok());
    assert_eq!(check_unchanged(&Some(vec![1, 2]), &Some(vec![1, 3])).err().unwrap().0, "EXTERNAL_CHANGE");
    assert_eq!(check_unchanged(&None, &Some(vec![1])).err().unwrap().0, "EXTERNAL_CHANGE");
    assert!(check_retention(50).is_ok());
    assert_eq!(check_retention(51).err().unwrap().0, "Backup retention must be 0–50");
}

#[test]
fn backups_and_recovery_decisions() {
    assert!(archive_check_needed(true, 1, true));
    assert!(!archive_check_needed(false, 1, true));
    assert!(!archive_check_needed(true, 0, true));
    assert!(backup_needed(3, true, false));
    assert!(!backup_needed(3, true, true));
    assert!(!backup_needed(0, true, false));
    assert!(!backup_needed(3, false, false));
    assert!(matches!(sidecar_action(true, false), FileAction::Write));
    assert!(matches!(sidecar_action(false, true), FileAction::Remove));
    assert!(matches!(sidecar_action(false, false), FileAction::Keep));
    assert!(restore_needed(true, false));
    assert!(!restore_needed(true, true));
    assert!(!restore_needed(false, false));
    assert!(matches!(restore_action(true, true), FileAction::Write));
    assert!(matches!(restore_action(false, true), FileAction::Remove));
}

#[test]
fn pruning_removes_the_oldest_backups() {
    let times = vec![Some(30), Some(10), None, Some(20), Some(10)];
    assert_eq!(prune(&times, 2), vec![2, 1, 4]);
    assert_eq!(prune(&times, 5), Vec::<usize>::new());
    assert_eq!(prune(&times, 0), vec![2, 1, 4, 3, 0]);
    assert_eq!(prune(&vec![], 0), Vec::<usize>::new());
}

#[test]
fn backups_list_newest_first() {
    let entries = vec![(5u64, "save-a.zip".to_string()), (9, "save-b.zip".to_string()), (5, "save-c.zip".to_string())];
    assert_eq!(order_backups(&entries), vec![1, 2, 0]);
    assert!(marks_backup("slot_backup_1.dat"));
    assert!(!marks_backup("slot.dat"));
    assert!(!marks_backup("_backup"));
}
