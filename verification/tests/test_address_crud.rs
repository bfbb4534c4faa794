//! Address lifecycle: insertion with and without street assignment,
//! lookup by id and by street, partial updates, deletion.

use addrslips::model::AddressUpdate;
use addrslips::model::Color;
use addrslips::model::FieldUpdate;
use addrslips::model::NewAddress;
use addrslips::model::NewArea;
use addrslips::model::Point;
use addrslips::project::Project;

fn png_bytes(w: u32, h: u32) -> Vec<u8> {
    let img = image::RgbImage::from_fn(w, h, |_, _| image::Rgb([255u8, 0u8, 0u8]));
    let mut out: Vec<u8> = Vec::new();
    let mut cursor = std::io::Cursor::new(&mut out);
    image::DynamicImage::ImageRgb8(img).write_to(&mut cursor, image::ImageFormat::Png).unwrap();
    out
}

fn make_new_area(name: &str, color: Color) -> NewArea {
    NewArea {
        name: String::from(name),
        color,
        image_bytes: png_bytes(100, 100),
        image_ext: String::from("png"),
    }
}

fn make_test_address(house_number: &str, x: u32, y: u32) -> NewAddress {
    NewAddress {
        house_number: String::from(house_number),
        position: Point { x, y },
        confidence_milli: 950,
        estimated_flats: Some(4),
        circle_radius: 10,
        assigned_street_id: None,
    }
}

#[test]
fn test_add_address_without_street() {
    let mut project = Project::create();
    let new_area = make_new_area("Test Area", Color { r: 255, g: 0, b: 0 });
    let area_repo = project.add_area(&new_area).unwrap();
    let area_id = area_repo.area_id;

    let new_address = make_test_address("42", 100, 200);
    let conn = project.acquire_connection().unwrap();
    let address = conn.add_address(area_id, &new_address).unwrap();

    assert!(address.id > 0);
    assert_eq!(address.house_number, "42");
    assert_eq!(address.position.x, 100);
    assert_eq!(address.position.y, 200);
    assert_eq!(address.confidence_milli, 950);
    assert_eq!(address.verified, false);
    assert_eq!(address.estimated_flats, Some(4));
    assert_eq!(address.assigned_street_id, None);
}

#[test]
fn test_add_address_with_street() {
    let mut project = Project::create();
    let new_area = make_new_area("Test Area", Color { r: 0, g: 0, b: 255 });
    let area_repo = project.add_area(&new_area).unwrap();
    let area_id = area_repo.area_id;

    let conn = project.acquire_connection().unwrap();
    let street = conn.add_street(area_id).unwrap();

    let mut new_address = make_test_address("123", 300, 400);
    new_address.assigned_street_id = Some(street.id);
    let address = conn.add_address(area_id, &new_address).unwrap();

    assert_eq!(address.assigned_street_id, Some(street.id));

    let street_addresses = conn.get_addresses_by_street(area_id, street.id);
    assert_eq!(street_addresses.len(), 1);
    assert_eq!(street_addresses[0].id, address.id);
    assert_eq!(street_addresses[0].house_number, "123");
}

#[test]
fn test_update_address_verified_flag() {
    let mut project = Project::create();
    let new_area = make_new_area("Test Area", Color { r: 0, g: 255, b: 0 });
    let area_repo = project.add_area(&new_area).unwrap();
    let area_id = area_repo.area_id;

    let conn = project.acquire_connection().unwrap();
    let new_address = make_test_address("99", 500, 600);
    let address = conn.add_address(area_id, &new_address).unwrap();

    assert_eq!(address.verified, false);

    let update = AddressUpdate { verified: Some(true), ..Default::default() };
    let updated = conn.update_address(area_id, address.id, &update).unwrap();

    assert_eq!(updated.verified, true);
    assert_eq!(updated.id, address.id);
    assert_eq!(updated.house_number, "99");

    let reloaded = conn.get_address_by_id(area_id, address.id);
    let reloaded = reloaded.expect("Address should exist");
    assert_eq!(reloaded.verified, true);
}

#[test]
fn test_delete_address() {
    let mut project = Project::create();
    let new_area = make_new_area("Test Area", Color { r: 255, g: 0, b: 0 });
    let area_repo = project.add_area(&new_area).unwrap();
    let area_id = area_repo.area_id;

    let conn = project.acquire_connection().unwrap();
    let new_address = make_test_address("77", 700, 800);
    let address = conn.add_address(area_id, &new_address).unwrap();
    let address_id = address.id;

    let all_addresses = conn.get_addresses(area_id);
    assert_eq!(all_addresses.len(), 1);

    conn.delete_address(area_id, address_id);

    let result = conn.get_address_by_id(area_id, address_id);
    assert!(result.is_none(), "Address should no longer exist");

    let all_addresses = conn.get_addresses(area_id);
    assert_eq!(all_addresses.len(), 0);
}

#[test]
fn test_update_address_three_way_fields() {
    let mut project = Project::create();
    let new_area = make_new_area("Test Area", Color { r: 9, g: 9, b: 9 });
    let area_id = project.add_area(&new_area).unwrap().area_id;

    let conn = project.acquire_connection().unwrap();
    let address = conn.add_address(area_id, &make_test_address("7", 1, 2)).unwrap();
    assert_eq!(address.estimated_flats, Some(4));

    // Clear the nullable field; everything else keeps its value.
    let update = AddressUpdate { estimated_flats: FieldUpdate::Clear, ..Default::default() };
    let cleared = conn.update_address(area_id, address.id, &update).unwrap();
    assert_eq!(cleared.estimated_flats, None);
    assert_eq!(cleared.house_number, "7");
    assert_eq!(cleared.confidence_milli, 950);

    // Set it again.
    let update = AddressUpdate { estimated_flats: FieldUpdate::Assign(9), ..Default::default() };
    let set = conn.update_address(area_id, address.id, &update).unwrap();
    assert_eq!(set.estimated_flats, Some(9));

    // Assigning a street that does not exist is a foreign-key failure.
    let update = AddressUpdate { assigned_street: FieldUpdate::Assign(404), ..Default::default() };
    let err = conn.update_address(area_id, address.id, &update).unwrap_err();
    assert!(err.message().contains("FOREIGN KEY"));
}

#[test]
fn test_address_cross_area_street_rejected() {
    let mut project = Project::create();
    let area1 = project.add_area(&make_new_area("One", Color { r: 1, g: 2, b: 3 })).unwrap().area_id;
    let area2 = project.add_area(&make_new_area("Two", Color { r: 4, g: 5, b: 6 })).unwrap().area_id;

    let conn = project.acquire_connection().unwrap();
    let street1 = conn.add_street(area1).unwrap();

    let mut new_address = make_test_address("5", 10, 20);
    new_address.assigned_street_id = Some(street1.id);
    let err = conn.add_address(area2, &new_address).unwrap_err();
    assert!(err.message().contains("FOREIGN KEY"));
}
