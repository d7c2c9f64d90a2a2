use dwarf_shader_language::paths::get_file_name;
use dwarf_shader_language::paths::get_file_name_ext;

#[test]
fn file_name_strips_directories_and_ending() {
    assert_eq!(get_file_name("src/structs/Light.glsl"), "Light");
    assert_eq!(get_file_name("Light.glsl"), "Light");
    assert_eq!(get_file_name("dir/file"), "file");
    assert_eq!(get_file_name("a.b.c"), "a.b");
}

#[test]
fn file_name_keeps_leading_dot() {
    assert_eq!(get_file_name(".hidden"), ".hidden");
    assert_eq!(get_file_name("dir/.hidden"), ".hidden");
    assert_eq!(get_file_name("dir/.hidden.bak"), ".hidden");
}

#[test]
fn file_name_edge_shapes() {
    assert_eq!(get_file_name(""), "");
    assert_eq!(get_file_name("dir/"), "");
    assert_eq!(get_file_name("a."), "a");
}

#[test]
fn file_name_ext_keeps_ending() {
    assert_eq!(get_file_name_ext("src/structs/Light.glsl"), "Light.glsl");
    assert_eq!(get_file_name_ext("Light.glsl"), "Light.glsl");
    assert_eq!(get_file_name_ext("dir/file"), "file");
    assert_eq!(get_file_name_ext("dir/"), "");
    assert_eq!(get_file_name_ext(""), "");
}
