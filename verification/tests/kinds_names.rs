use mazalot::kinds::{
    body_kind_count, body_kind_name, moon_kind_count, moon_kind_name, parent_kind_count,
    parent_kind_name, region_count_total, region_name, star_kind_count, star_kind_name,
    sun_kind_count, sun_kind_name, sun_kind_name_count,
};

#[test]
fn region_names() {
    assert_eq!(region_count_total(), 8);
    assert_eq!(region_name(0), "Republic");
    assert_eq!(region_name(7), "Drift");
    assert_eq!(region_name(8), "Republic");
}

#[test]
fn body_and_sun_kinds() {
    assert_eq!(body_kind_count(), 7);
    assert_eq!(body_kind_name(6), "molten");
    assert_eq!(body_kind_name(7), body_kind_name(0));
    assert_eq!(sun_kind_count(), 4);
    assert_eq!(sun_kind_name(3), "azure");
    assert_eq!(sun_kind_name(4), "amber");
    assert_eq!(sun_kind_name_count(), 5);
}

#[test]
fn moon_and_star_kinds() {
    assert_eq!(parent_kind_count(), 5);
    assert_eq!(parent_kind_name(3), "gas giant");
    assert_eq!(moon_kind_count(), 5);
    assert_eq!(moon_kind_name(2), "icy");
    assert_eq!(moon_kind_name(5), "grey rock");
    assert_eq!(star_kind_count(), 2);
    assert_eq!(star_kind_name(1), "white star");
    assert_eq!(star_kind_name(2), "yellow star");
}
