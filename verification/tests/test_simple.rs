//! A fresh project serves an empty listing, and an empty snapshot opens
//! back to an empty project.

use addrslips::project::Project;

#[test]
fn test_simple() {
    let project = Project::create();

    let areas = project.get_areas().unwrap();
    assert_eq!(areas.len(), 0);
}

#[test]
fn test_empty_snapshot_reopens_empty() {
    let mut project = Project::create();
    let bytes = project.save_project().unwrap();
    let reopened = Project::from_archive_bytes(&bytes).unwrap();
    assert_eq!(reopened.get_areas().unwrap().len(), 0);
}

#[test]
fn test_corrupt_archive_is_rejected() {
    let garbage: Vec<u8> = vec![0, 1, 2, 3, 4, 5, 6, 7];
    let err = match Project::from_archive_bytes(&garbage) {
        Ok(_) => panic!("garbage must not open"),
        Err(e) => e,
    };
    assert_eq!(err.message(), "corrupt project: archive cannot be decoded");
}

#[test]
fn test_truncated_archive_is_rejected() {
    let mut project = Project::create();
    let bytes = project.save_project().unwrap();
    let mut broken = bytes.clone();
    broken.truncate(broken.len() - 1);
    assert!(Project::from_archive_bytes(&broken).is_err());
}
