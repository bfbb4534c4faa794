//! Constraint enforcement at the data-access boundary: team and address
//! must share an area, and an address belongs to at most one team.

use addrslips::model::Color;
use addrslips::model::NewAddress;
use addrslips::model::NewArea;
use addrslips::model::Point;
use addrslips::project::Project;

fn png_bytes(w: u32, h: u32) -> Vec<u8> {
    let img = image::RgbImage::from_fn(w, h, |_, _| image::Rgb([255u8, 0u8, 0u8]));
    let mut out: Vec<u8> = Vec::new();
    let mut cursor = std::io::Cursor::new(&mut out);
    image::DynamicImage::ImageRgb8(img).write_to(&mut cursor, image::ImageFormat::Png).unwrap();
    out
}

fn make_new_area(name: &str, color: Color) -> NewArea {
    NewArea {
        name: String::from(name),
        color,
        image_bytes: png_bytes(100, 100),
        image_ext: String::from("png"),
    }
}

fn make_test_address(house_number: &str, x: u32, y: u32) -> NewAddress {
    NewAddress {
        house_number: String::from(house_number),
        position: Point { x, y },
        confidence_milli: 950,
        estimated_flats: Some(4),
        circle_radius: 10,
        assigned_street_id: None,
    }
}

#[test]
fn test_team_assignment_enforces_same_area() {
    // 1. Area one holds a street and an address.
    let mut project = Project::create();
    let area1 = project.add_area(&make_new_area("Area 1", Color { r: 255, g: 0, b: 0 })).unwrap();
    let conn = project.acquire_connection().unwrap();
    let street1 = conn.add_street(area1.area_id).unwrap();

    let mut new_address1 = make_test_address("42", 100, 200);
    new_address1.assigned_street_id = Some(street1.id);
    let address1 = conn.add_address(area1.area_id, &new_address1).unwrap();

    // 2. Area two holds a team.
    drop(conn);
    let area2 = project.add_area(&make_new_area("Area 2", Color { r: 0, g: 0, b: 255 })).unwrap();
    let conn = project.acquire_connection().unwrap();
    let team2 = conn.add_team(area2.area_id).unwrap();

    // 3. Assigning the address from area one to the team in area two fails.
    let result = conn.assign_address(area2.area_id, team2.id, address1.id);

    assert!(result.is_err(), "Should fail to assign address from different area");
    let error_msg = result.unwrap_err().message();
    assert!(
        error_msg.contains("FOREIGN KEY constraint failed") || error_msg.contains("FOREIGN KEY")
            || error_msg.contains("foreign key"),
        "Error should mention foreign key constraint, got: {}",
        error_msg,
    );
}

#[test]
fn test_address_can_only_belong_to_one_team() {
    // 1. One area with a street and an address.
    let mut project = Project::create();
    let area = project.add_area(&make_new_area("Test Area", Color { r: 0, g: 255, b: 0 })).unwrap();
    let conn = project.acquire_connection().unwrap();
    let street = conn.add_street(area.area_id).unwrap();

    let mut new_address = make_test_address("99", 300, 400);
    new_address.assigned_street_id = Some(street.id);
    let address = conn.add_address(area.area_id, &new_address).unwrap();

    // 2. The first assignment succeeds.
    let team1 = conn.add_team(area.area_id).unwrap();
    conn.assign_address(area.area_id, team1.id, address.id).unwrap();

    let team1_addresses = conn.get_team_addresses(area.area_id, team1.id);
    assert_eq!(team1_addresses.len(), 1);

    // 3. A second team cannot take the same address.
    let team2 = conn.add_team(area.area_id).unwrap();
    let result = conn.assign_address(area.area_id, team2.id, address.id);

    assert!(result.is_err(), "Should fail to assign address to second team");
    let error_msg = result.unwrap_err().message();
    assert!(
        error_msg.contains("UNIQUE") || error_msg.contains("unique") || error_msg.contains(
            "constraint",
        ),
        "Error should mention unique constraint, got: {}",
        error_msg,
    );
}

#[test]
fn test_unassign_frees_the_address() {
    let mut project = Project::create();
    let area = project.add_area(&make_new_area("A", Color { r: 1, g: 1, b: 1 })).unwrap();
    let conn = project.acquire_connection().unwrap();
    let address = conn.add_address(area.area_id, &make_test_address("8", 5, 6)).unwrap();
    let team1 = conn.add_team(area.area_id).unwrap();
    let team2 = conn.add_team(area.area_id).unwrap();
    assert_eq!(team1.number, 0);
    assert_eq!(team2.number, 1);

    conn.assign_address(area.area_id, team1.id, address.id).unwrap();
    conn.unassign_address(area.area_id, team1.id, address.id);
    // Freed, the address can go to the other team.
    conn.assign_address(area.area_id, team2.id, address.id).unwrap();
    assert_eq!(conn.get_team_addresses(area.area_id, team2.id).len(), 1);
    assert_eq!(conn.get_team_addresses(area.area_id, team1.id).len(), 0);
}

#[test]
fn test_team_addresses_bulk_fetch() {
    let mut project = Project::create();
    let area = project.add_area(&make_new_area("A", Color { r: 2, g: 2, b: 2 })).unwrap();
    let conn = project.acquire_connection().unwrap();
    let a1 = conn.add_address(area.area_id, &make_test_address("1", 1, 1)).unwrap();
    let a2 = conn.add_address(area.area_id, &make_test_address("2", 2, 2)).unwrap();
    let team1 = conn.add_team(area.area_id).unwrap();
    let team2 = conn.add_team(area.area_id).unwrap();
    let team3 = conn.add_team(area.area_id).unwrap();
    conn.assign_address(area.area_id, team1.id, a1.id).unwrap();
    conn.assign_address(area.area_id, team2.id, a2.id).unwrap();

    let all = conn.get_team_addresses_all(area.area_id);
    // Only teams with at least one assignment appear, by ascending id.
    assert_eq!(all.len(), 2);
    assert_eq!(all[0].0, team1.id);
    assert_eq!(all[0].1.len(), 1);
    assert_eq!(all[0].1[0].house_number, "1");
    assert_eq!(all[1].0, team2.id);
    assert_eq!(all[1].1[0].house_number, "2");
    assert!(all.iter().all(|entry| entry.0 != team3.id));
}

#[test]
fn test_delete_area_cascades() {
    let mut project = Project::create();
    let area = project.add_area(&make_new_area("Doomed", Color { r: 3, g: 3, b: 3 })).unwrap();
    let keeper = project.add_area(&make_new_area("Keeper", Color { r: 4, g: 4, b: 4 })).unwrap();
    let conn = project.acquire_connection().unwrap();
    let street = conn.add_street(area.area_id).unwrap();
    let mut na = make_test_address("6", 9, 9);
    na.assigned_street_id = Some(street.id);
    let address = conn.add_address(area.area_id, &na).unwrap();
    let team = conn.add_team(area.area_id).unwrap();
    conn.assign_address(area.area_id, team.id, address.id).unwrap();
    let keeper_street = conn.add_street(keeper.area_id).unwrap();

    conn.delete_area(area.area_id);

    assert_eq!(conn.get_streets(area.area_id).len(), 0);
    assert_eq!(conn.get_addresses(area.area_id).len(), 0);
    assert_eq!(conn.get_teams(area.area_id).len(), 0);
    assert!(conn.get_street_by_id(keeper.area_id, keeper_street.id).is_some());
    drop(conn);
    assert_eq!(project.get_areas().unwrap().len(), 1);
}
