use dds_converter::paths::{calculate_output_path, rename_extension};
use dds_converter::sequence::{
    base_name_of, find_image_sequences, has_dds_frame, find_sprite_sequences, is_dds_file, is_image_file,
};

fn strings(items: &[&str]) -> Vec<String> {
    items.iter().map(|s| s.to_string()).collect()
}

#[test]
fn strip_beyond_component_count_keeps_all_components() {
    let r = calculate_output_path(
        &strings(&["a", "b", "c", "tex.dds"]),
        &strings(&["a"]),
        &strings(&["out"]),
        5,
        "png",
    );
    assert_eq!(r, strings(&["out", "b", "c", "tex.png"]));
}

#[test]
fn strip_equal_to_component_count_is_the_same_as_more() {
    let input = strings(&["a", "b", "c", "tex.dds"]);
    let root = strings(&["a"]);
    let out = strings(&["out"]);
    let exact = calculate_output_path(&input, &root, &out, 3, "png");
    let more = calculate_output_path(&input, &root, &out, 9, "png");
    assert_eq!(exact, more);
}

#[test]
fn strip_drops_leading_components() {
    let r = calculate_output_path(
        &strings(&["in", "x", "y", "t.dds"]),
        &strings(&["in"]),
        &strings(&["o", "p"]),
        1,
        "jpg",
    );
    assert_eq!(r, strings(&["o", "p", "y", "t.jpg"]));
}

#[test]
fn path_outside_root_is_kept_whole() {
    let r = calculate_output_path(
        &strings(&["other", "t.dds"]),
        &strings(&["in"]),
        &strings(&["out"]),
        0,
        "png",
    );
    assert_eq!(r, strings(&["out", "other", "t.png"]));
}

#[test]
fn input_equal_to_root_keeps_its_file_name() {
    let r = calculate_output_path(&strings(&["in"]), &strings(&["in"]), &strings(&["out"]), 0, "png");
    assert_eq!(r, strings(&["out", "in.png"]));
    let single = calculate_output_path(
        &strings(&["d", "tex.dds"]),
        &strings(&["d", "tex.dds"]),
        &strings(&["out"]),
        0,
        "png",
    );
    assert_eq!(single, strings(&["out", "tex.png"]));
    let up = calculate_output_path(&strings(&["..", "t.dds"]), &strings(&["in"]), &strings(&["out"]), 3, "png");
    assert_eq!(up, strings(&["out", "t.png"]));
}

#[test]
fn root_and_parent_components_never_leave_the_output_directory() {
    let r = calculate_output_path(
        &strings(&["/", "x", "..", "t.dds"]),
        &strings(&["in"]),
        &strings(&["out"]),
        0,
        "png",
    );
    assert_eq!(r, strings(&["out", "x", "t.png"]));
}

#[test]
fn sequences_with_a_dds_frame_need_conversion() {
    assert!(has_dds_frame(&strings(&["a_1.png", "a_2.dds"])));
    assert!(has_dds_frame(&strings(&["a_1.png", "a_2.DDS"])));
    assert!(!has_dds_frame(&strings(&["a_1.png", "a_2.tga"])));
}

#[test]
fn extension_replacement_follows_file_name_rules() {
    assert_eq!(rename_extension("tex.dds", "png"), "tex.png");
    assert_eq!(rename_extension("a.b.dds", "png"), "a.b.png");
    assert_eq!(rename_extension(".hidden", "png"), ".hidden.png");
    assert_eq!(rename_extension("noext", "png"), "noext.png");
    assert_eq!(rename_extension("tex.dds", ""), "tex");
    assert_eq!(rename_extension("..", "png"), "..");
}

#[test]
fn underscore_numbered_files_form_one_sequence() {
    let r = find_image_sequences(&strings(&["f_01.png", "f_02.png", "g.png"]));
    assert_eq!(r, vec![strings(&["f_01.png", "f_02.png"])]);
}

#[test]
fn unpadded_numbers_sort_lexicographically() {
    let r = find_image_sequences(&strings(&["frame9.png", "frame10.png"]));
    assert_eq!(r, vec![strings(&["frame10.png", "frame9.png"])]);
}

#[test]
fn sequences_are_sorted_and_filtered_by_extension() {
    let mut r = find_image_sequences(&strings(&[
        "b_2.PNG", "note_1.txt", "note_2.txt", "b_1.png", "a3.tga", "a1.tga", "a2.tga", "solo.png",
    ]));
    r.sort();
    assert_eq!(r, vec![strings(&["a1.tga", "a2.tga", "a3.tga"]), strings(&["b_1.png", "b_2.PNG"])]);
}

#[test]
fn base_names() {
    assert_eq!(base_name_of("anim_001"), "anim");
    assert_eq!(base_name_of("frame12"), "frame");
    assert_eq!(base_name_of("my_anim01"), "my_anim");
    assert_eq!(base_name_of("plain"), "plain");
    assert_eq!(base_name_of("x_"), "x");
    assert_eq!(base_name_of("123"), "");
}

#[test]
fn image_extensions_ignore_case() {
    assert!(is_image_file("a.JPEG"));
    assert!(is_image_file("a.Bmp"));
    assert!(!is_image_file("a.gif"));
    assert!(!is_image_file("png"));
    assert!(is_dds_file("T.DDS"));
    assert!(!is_dds_file("t.dds.bak"));
}

#[test]
fn textures_pair_with_their_descriptors() {
    let r = find_sprite_sequences(&strings(&["a.dds", "a.sprite", "b.dds", "c.sprite", "d.DDS", "d.sprite"]));
    assert_eq!(r, vec![("a.dds".to_string(), "a.sprite".to_string())]);
}
