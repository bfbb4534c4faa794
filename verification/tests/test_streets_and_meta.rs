//! Streets with their polylines, team boundaries, project metadata, the
//! full workflow scenario, and the small value types.

use addrslips::contour::Contour;
use addrslips::model::AreaState;
use addrslips::model::Color;
use addrslips::model::NewAddress;
use addrslips::model::NewArea;
use addrslips::model::Point;
use addrslips::model::FieldUpdate;
use addrslips::model::StreetUpdate;
use addrslips::model::UpdateProjectSettings;
use addrslips::project::Project;
use addrslips::text::format_u64;
use addrslips::text::parse_u64;

fn png_bytes(w: u32, h: u32) -> Vec<u8> {
    let img = image::RgbImage::from_fn(w, h, |_, _| image::Rgb([255u8, 0u8, 0u8]));
    let mut out: Vec<u8> = Vec::new();
    let mut cursor = std::io::Cursor::new(&mut out);
    image::DynamicImage::ImageRgb8(img).write_to(&mut cursor, image::ImageFormat::Png).unwrap();
    out
}

fn make_new_area(name: &str, color: Color) -> NewArea {
    NewArea {
        name: String::from(name),
        color,
        image_bytes: png_bytes(100, 100),
        image_ext: String::from("png"),
    }
}

#[test]
fn test_street_polyline_replace_atomic() {
    let mut project = Project::create();
    let area = project.add_area(&make_new_area("A", Color { r: 1, g: 2, b: 3 })).unwrap();
    let conn = project.acquire_connection().unwrap();
    let street = conn.add_street(area.area_id).unwrap();
    assert!(conn.get_street_polyline(street.id).is_none());

    let first = vec![Point { x: 1, y: 2 }, Point { x: 3, y: 4 }];
    conn.draw_street_polyline(area.area_id, street.id, &first).unwrap();
    let got = conn.get_street_polyline(street.id).unwrap();
    assert_eq!(got.points.len(), 2);
    assert_eq!(got.points[0].x, 1);

    // The replacement is whole: afterwards exactly the new vertex list.
    let second = vec![Point { x: 9, y: 9 }];
    conn.draw_street_polyline(area.area_id, street.id, &second).unwrap();
    let got = conn.get_street_polyline(street.id).unwrap();
    assert_eq!(got.points.len(), 1);
    assert_eq!(got.points[0].x, 9);

    conn.remove_street_polyline(street.id);
    assert!(conn.get_street_polyline(street.id).is_none());

    // Drawing for an absent street is a foreign-key failure.
    let err = conn.draw_street_polyline(area.area_id, 404, &second).unwrap_err();
    assert!(err.message().contains("FOREIGN KEY"));
}

#[test]
fn test_update_street_partial() {
    let mut project = Project::create();
    let area = project.add_area(&make_new_area("A", Color { r: 0, g: 0, b: 0 })).unwrap();
    let conn = project.acquire_connection().unwrap();
    let street = conn.add_street(area.area_id).unwrap();
    assert_eq!(street.name, None);
    assert_eq!(street.verified, false);

    let update = StreetUpdate { name: FieldUpdate::Assign(String::from("Main")), verified: None };
    let renamed = conn.update_street(area.area_id, street.id, &update).unwrap();
    assert_eq!(renamed.name.as_deref(), Some("Main"));
    assert_eq!(renamed.verified, false);

    let update = StreetUpdate { name: FieldUpdate::Keep, verified: Some(true) };
    let verified = conn.update_street(area.area_id, street.id, &update).unwrap();
    assert_eq!(verified.name.as_deref(), Some("Main"));
    assert_eq!(verified.verified, true);

    // The nullable name can be cleared back to null, everything else kept.
    let update = StreetUpdate { name: FieldUpdate::Clear, verified: None };
    let cleared = conn.update_street(area.area_id, street.id, &update).unwrap();
    assert_eq!(cleared.name, None);
    assert_eq!(cleared.verified, true);

    conn.delete_street(area.area_id, street.id).unwrap();
    assert!(conn.get_street_by_id(area.area_id, street.id).is_none());
}

#[test]
fn test_team_bounds_round_trip() {
    let mut project = Project::create();
    let area = project.add_area(&make_new_area("A", Color { r: 7, g: 7, b: 7 })).unwrap();
    let conn = project.acquire_connection().unwrap();
    let team = conn.add_team(area.area_id).unwrap();
    assert!(conn.get_team_bounds(team.id).is_none());

    let boundary = vec![Point { x: 0, y: 0 }, Point { x: 10, y: 0 }, Point { x: 10, y: 10 }];
    let stored = conn.set_team_bounds(area.area_id, team.id, &boundary).unwrap();
    assert_eq!(stored.boundary.len(), 3);
    let got = conn.get_team_bounds(team.id).unwrap();
    assert_eq!(got.boundary.len(), 3);
    assert_eq!(got.boundary[1].x, 10);

    conn.remove_team_bounds(team.id);
    assert!(conn.get_team_bounds(team.id).is_none());
}

#[test]
fn test_project_metadata() {
    let mut project = Project::create();
    assert!(project.get_project_name().is_err());

    let settings = UpdateProjectSettings {
        name: Some(String::from("Campaign North")),
        target_address_count: Some(1200),
        created_at: Some(String::from("2024-05-01T12:00:00Z")),
    };
    project.set_project_settings(&settings).unwrap();
    assert_eq!(project.get_project_name().unwrap(), "Campaign North");
    assert_eq!(project.get_target_address_count().unwrap(), 1200);
    assert_eq!(project.get_project_created_at().unwrap(), "2024-05-01T12:00:00Z");

    // A partial update keeps the other keys.
    let settings = UpdateProjectSettings {
        name: None,
        target_address_count: Some(1500),
        created_at: None,
    };
    project.set_project_settings(&settings).unwrap();
    assert_eq!(project.get_project_name().unwrap(), "Campaign North");
    assert_eq!(project.get_target_address_count().unwrap(), 1500);
}

#[test]
fn test_decimal_text_round_trip() {
    assert_eq!(format_u64(0), "0");
    assert_eq!(format_u64(1200), "1200");
    assert_eq!(format_u64(18446744073709551615), "18446744073709551615");
    assert_eq!(parse_u64("0"), Some(0));
    assert_eq!(parse_u64("1200"), Some(1200));
    assert_eq!(parse_u64("18446744073709551615"), Some(18446744073709551615));
    assert_eq!(parse_u64("18446744073709551616"), None);
    assert_eq!(parse_u64(""), None);
    assert_eq!(parse_u64("12a"), None);
}

#[test]
fn test_full_workflow_scenario() {
    // Create a project, add an area with a 100 by 100 image, then a
    // street and an address assigned to it; listing by street finds
    // exactly that address.
    let mut project = Project::create();
    let area = project.add_area(&make_new_area("Test Area", Color { r: 255, g: 0, b: 0 })).unwrap();
    let got = project.get_area(&area).unwrap();
    assert!(matches!(got.state, AreaState::Imported));
    assert_eq!(got.color.r, 255);

    let conn = project.acquire_connection().unwrap();
    let street = conn.add_street(area.area_id).unwrap();
    let new_address = NewAddress {
        house_number: String::from("42"),
        position: Point { x: 100, y: 200 },
        confidence_milli: 950,
        estimated_flats: Some(4),
        circle_radius: 10,
        assigned_street_id: Some(street.id),
    };
    let _address = conn.add_address(area.area_id, &new_address).unwrap();

    let by_street = conn.get_addresses_by_street(area.area_id, street.id);
    assert_eq!(by_street.len(), 1);
    assert_eq!(by_street[0].house_number, "42");
}

#[test]
fn test_contour_geometry() {
    let c = Contour { label: 1, min_x: 10, min_y: 20, max_x: 19, max_y: 19, pixel_count: 55 };
    let c = Contour { max_y: 29, ..c };
    assert_eq!(c.width(), 10);
    assert_eq!(c.height(), 10);
    assert_eq!(c.area(), 55);
    assert_eq!(c.center(), (14, 24));
    let b = c.bounding_box();
    assert_eq!(b.x, 10);
    assert_eq!(b.width, 10);
    assert_eq!(b.height, 10);
}

#[test]
fn test_area_state_codes() {
    assert_eq!(AreaState::Imported.to_code(), 0);
    assert_eq!(AreaState::Complete.to_code(), 8);
    assert!(matches!(AreaState::from_code(3), Some(AreaState::StreetsDetected)));
    assert!(AreaState::from_code(9).is_none());
}

#[test]
fn test_snapshot_preserves_everything() {
    let mut project = Project::create();
    let area = project.add_area(&make_new_area("Full", Color { r: 5, g: 6, b: 7 })).unwrap();
    {
        let conn = project.acquire_connection().unwrap();
        let street = conn.add_street(area.area_id).unwrap();
        conn.draw_street_polyline(area.area_id, street.id, &vec![Point { x: 1, y: 1 }]).unwrap();
        let mut na = NewAddress {
            house_number: String::from("12b"),
            position: Point { x: 4, y: 5 },
            confidence_milli: 700,
            estimated_flats: None,
            circle_radius: 3,
            assigned_street_id: None,
        };
        na.assigned_street_id = Some(street.id);
        let address = conn.add_address(area.area_id, &na).unwrap();
        let team = conn.add_team(area.area_id).unwrap();
        conn.assign_address(area.area_id, team.id, address.id).unwrap();
        conn.set_team_bounds(area.area_id, team.id, &vec![Point { x: 0, y: 0 }, Point { x: 2, y: 2 }])
            .unwrap();
    }
    let bytes = project.save_project().unwrap();

    let reopened = Project::from_archive_bytes(&bytes).unwrap();
    let mut reopened = reopened;
    let areas = reopened.get_areas().unwrap();
    assert_eq!(areas.len(), 1);
    let conn = reopened.acquire_connection().unwrap();
    let streets = conn.get_streets(areas[0].id);
    assert_eq!(streets.len(), 1);
    assert_eq!(conn.get_street_polyline(streets[0].id).unwrap().points.len(), 1);
    let addresses = conn.get_addresses(areas[0].id);
    assert_eq!(addresses.len(), 1);
    assert_eq!(addresses[0].house_number, "12b");
    assert_eq!(addresses[0].confidence_milli, 700);
    let teams = conn.get_teams(areas[0].id);
    assert_eq!(teams.len(), 1);
    assert_eq!(conn.get_team_addresses(areas[0].id, teams[0].id).len(), 1);
    assert_eq!(conn.get_team_bounds(teams[0].id).unwrap().boundary.len(), 2);
}
