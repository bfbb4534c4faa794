//! Area lifecycle: creation with images, retrieval, update, deletion,
//! and persistence through a save/reopen cycle.

use addrslips::model::AreaState;
use addrslips::model::AreaUpdate;
use addrslips::project::Project;

use addrslips::model::Color;
use addrslips::model::NewArea;

fn png_bytes(w: u32, h: u32) -> Vec<u8> {
    let img = image::RgbImage::from_fn(w, h, |_, _| image::Rgb([255u8, 0u8, 0u8]));
    let mut out: Vec<u8> = Vec::new();
    let mut cursor = std::io::Cursor::new(&mut out);
    image::DynamicImage::ImageRgb8(img).write_to(&mut cursor, image::ImageFormat::Png).unwrap();
    out
}

fn test_red() -> Color {
    Color { r: 255, g: 0, b: 0 }
}

fn test_blue() -> Color {
    Color { r: 0, g: 0, b: 255 }
}

fn test_green() -> Color {
    Color { r: 0, g: 255, b: 0 }
}

fn make_new_area(name: &str, color: Color) -> NewArea {
    NewArea {
        name: String::from(name),
        color,
        image_bytes: png_bytes(100, 100),
        image_ext: String::from("png"),
    }
}

#[test]
fn test_create_and_retrieve_area() {
    let mut project = Project::create();

    let new_area = make_new_area("Test Area", test_red());
    let area_repo = project.add_area(&new_area).unwrap();
    let area = project.get_area(&area_repo).unwrap();

    assert!(area.id > 0, "Area should have positive ID");
    assert_eq!(area.name, "Test Area");
    assert_eq!(area.color.r, 255);
    assert_eq!(area.color.g, 0);
    assert_eq!(area.color.b, 0);
    assert!(matches!(area.state, AreaState::Imported));

    let areas = project.get_areas().unwrap();
    assert_eq!(areas.len(), 1);
    assert_eq!(areas[0].name, "Test Area");
}

#[test]
fn test_update_area_state() {
    let mut project = Project::create();
    let new_area = make_new_area("Test Area", test_blue());
    let area_repo = project.add_area(&new_area).unwrap();

    let area_before = project.get_area(&area_repo).unwrap();
    assert!(matches!(area_before.state, AreaState::Imported));

    let update = AreaUpdate { name: None, color: None, state: Some(AreaState::AddressesDetected) };
    let updated_area = project.update_area(&area_repo, &update).unwrap();

    assert!(matches!(updated_area.state, AreaState::AddressesDetected));
    assert_eq!(updated_area.name, "Test Area");
    assert_eq!(updated_area.id, area_before.id);
}

#[test]
fn test_delete_area() {
    let mut project = Project::create();
    let new_area = make_new_area("Area to Delete", test_green());
    let area_repo = project.add_area(&new_area).unwrap();
    let area_id = project.get_area(&area_repo).unwrap().id;

    let areas_before = project.get_areas().unwrap();
    assert_eq!(areas_before.len(), 1);

    project.delete_area(area_repo).unwrap();

    let areas_after = project.get_areas().unwrap();
    assert_eq!(areas_after.len(), 0);

    let result = project.get_area_repo(area_id);
    assert!(result.is_err(), "Getting deleted area should fail");
}

#[test]
fn test_area_persists_after_save() {
    // 1. Create a project and add an area.
    let archive_bytes;
    {
        let mut project = Project::create();
        let new_area = make_new_area("Persistent Area", test_red());
        let _area_repo = project.add_area(&new_area).unwrap();

        let areas = project.get_areas().unwrap();
        assert_eq!(areas.len(), 1);
        assert_eq!(areas[0].name, "Persistent Area");

        archive_bytes = project.save_project().unwrap();
    }

    // 2. Reopen the project from the saved archive.
    {
        let project = Project::from_archive_bytes(&archive_bytes).unwrap();

        let areas = project.get_areas().unwrap();
        assert_eq!(areas.len(), 1);
        assert_eq!(areas[0].name, "Persistent Area");
        assert_eq!(areas[0].color.r, 255);
        assert!(matches!(areas[0].state, AreaState::Imported));

        let area_repo = project.get_area_repo(areas[0].id).unwrap();
        let image = area_repo.get_image();
        assert_eq!(image.width(), 100);
        assert_eq!(image.height(), 100);
    }
}

#[test]
fn test_add_area_rejects_bad_image() {
    let mut project = Project::create();
    let new_area = NewArea {
        name: String::from("Broken"),
        color: test_red(),
        image_bytes: vec![1, 2, 3, 4],
        image_ext: String::from("png"),
    };
    assert!(project.add_area(&new_area).is_err());
    assert_eq!(project.get_areas().unwrap().len(), 0);
}

#[test]
fn test_closed_project_refuses_queries() {
    let mut project = Project::create();
    let _bytes = project.snapshot_bytes(false).unwrap();
    assert!(!project.is_open());
    let err = project.get_areas().unwrap_err();
    assert_eq!(err.message(), "store is closed");
    assert!(project.acquire_connection().is_err());
}

#[test]
fn test_hex_color_round_trip() {
    let c = Color { r: 255, g: 0, b: 0 };
    let text = c.to_hex_string();
    assert_eq!(text, "#FF0000");
    let back = Color::from_hex_string(&text).unwrap();
    assert_eq!(back, c);
    let short = Color::from_hex_string("#f00").unwrap();
    assert_eq!(short, c);
    assert!(Color::from_hex_string("#12345").is_err());
    assert!(Color::from_hex_string("nonsense").is_err());
}

#[test]
fn test_store_and_load_image() {
    let mut project = Project::create();
    let data = png_bytes(3, 2);
    let name = project.store_image(data.clone(), "png").unwrap();
    // The generated name is a 36-character identifier, a dot, and the
    // source file's extension.
    assert_eq!(name.chars().count(), 40);
    assert_eq!(name.chars().nth(36), Some('.'));
    assert!(name.ends_with(".png"));
    let loaded = project.load_image(&name).unwrap();
    assert_eq!(loaded, data);
    let missing = project.load_image(&String::from("absent.png"));
    assert!(missing.is_err());
}

#[test]
fn test_delete_image() {
    let mut project = Project::create();
    let name = project.store_image(png_bytes(2, 2), "png").unwrap();
    assert!(project.load_image(&name).is_ok());
    project.delete_image(&name).unwrap();
    assert!(project.load_image(&name).is_err());
    // Deleting an absent name changes nothing and still succeeds.
    project.delete_image(&String::from("gone.png")).unwrap();
}
