use mazalot::planet::{
    GL_UNIFORMS_LEN, GL_U_OCT, GL_U_PAL, GL_U_PAL_LEN, GL_U_STOPS, GPU_F_STOPS, is_giant, planet_type_name, type_count, type_index, type_table_len, warp_oct, F_ALL,
    F_CHEAP_WARP, GPU_MAX_STOPS, GPU_STRIDE, TYPE_NAMES, TYPE_STOPS, WARP_OCTAVES,
};

/// The ramp slot is fixed-size; a longer ramp would be silently truncated.
#[test]
fn stops_fit() {
    for (i, stops) in TYPE_STOPS.iter().enumerate() {
        assert!(
            *stops <= GPU_MAX_STOPS,
            "type {:?} has {} ramp stops, GPU_MAX_STOPS is {}",
            TYPE_NAMES[i],
            stops,
            GPU_MAX_STOPS
        );
    }
}

#[test]
fn type_table_is_one_row_per_type() {
    assert_eq!(type_table_len(), type_count() * GPU_STRIDE);
    assert_eq!(type_table_len(), 26 * 76);
}

#[test]
fn type_names_round_trip() {
    for i in 0..type_count() {
        assert_eq!(type_index(planet_type_name(i)), Some(i));
    }
    assert_eq!(type_index("no_such_world"), None);
    assert_eq!(type_index(""), None);
}

#[test]
fn type_name_wraps() {
    assert_eq!(planet_type_name(type_count()), planet_type_name(0));
    assert_eq!(planet_type_name(type_count() + 3), planet_type_name(3));
}

#[test]
fn ringed_giant_is_a_giant() {
    let t = type_index("ringed_giant").unwrap();
    assert!(is_giant(t));
    assert!(is_giant(t + type_count()));
}

#[test]
fn cheap_warp_caps_the_warp_octaves() {
    assert_eq!(warp_oct(F_ALL, 5), WARP_OCTAVES);
    assert_eq!(warp_oct(F_ALL & !F_CHEAP_WARP, 5), 5);
    assert_eq!(warp_oct(F_CHEAP_WARP, 1), 2);
}

#[test]
fn gl_uniform_tables_fit() {
    let widest = TYPE_STOPS.iter().copied().max().unwrap();
    assert!(GL_U_STOPS + widest * 4 <= GL_U_OCT, "the ramp overruns the octave table");
    assert!(GL_U_OCT + 30 <= GL_U_PAL_LEN, "the octave table overruns the palette");
    assert!(GL_U_PAL + 5 * 3 <= GL_UNIFORMS_LEN, "the palette overruns the array");
}

/// Every field has to land inside the row, ramp included.
#[test]
fn stride_covers_layout() {
    assert!(GPU_F_STOPS + GPU_MAX_STOPS * 4 <= GPU_STRIDE);
    assert_eq!(GPU_STRIDE % 4, 0, "rows should start on a vec4 boundary");
    assert_eq!(type_table_len(), TYPE_NAMES.len() * GPU_STRIDE);
}
