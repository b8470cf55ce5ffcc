use toy_renderer::obj::{
    is_supported_extension, load_buf, normalize, IndexTuple, MeshData, ObjError, ObjMaterial,
};

fn parse(text: &str) -> MeshData {
    match load_buf(text.as_bytes()) {
        Ok(m) => m,
        Err(e) => panic!("unexpected error: {:?}", e),
    }
}

fn material_name(m: &Option<ObjMaterial>) -> Option<Vec<u8>> {
    m.as_ref().map(|x| x.name().clone())
}

#[test]
fn triangle_gives_one_object_group_and_polygon() {
    let m = parse("v 1 1 1\nv -1 -1 -1\nv 1 -1 1\nf 1 2 3\n");
    assert_eq!(m.position.len(), 3);
    assert_eq!(m.objects.len(), 1);
    assert_eq!(m.objects[0].groups.len(), 1);
    assert_eq!(m.objects[0].groups[0].polys.len(), 1);
    assert_eq!(
        m.objects[0].groups[0].polys[0].0,
        vec![IndexTuple(0, None, None), IndexTuple(1, None, None), IndexTuple(2, None, None)]
    );
    assert_eq!(m.objects[0].name, b"default".to_vec());
    assert_eq!(m.objects[0].groups[0].name, b"default".to_vec());
    assert_eq!(m.position[1].x, b"-1".to_vec());
}

#[test]
fn negative_index_refers_to_latest_position() {
    let m = parse("v 0 0 0\nv 1 0 0\nv 0 1 0\nv 0 0 1\nf -1 -2 -4\n");
    assert_eq!(
        m.objects[0].groups[0].polys[0].0,
        vec![IndexTuple(3, None, None), IndexTuple(2, None, None), IndexTuple(0, None, None)]
    );
    assert_eq!(normalize(-1, 5), Some(4));
    assert_eq!(normalize(1, 5), Some(0));
    assert_eq!(normalize(0, 5), None);
    assert_eq!(normalize(6, 5), None);
    assert_eq!(normalize(-6, 5), None);
}

#[test]
fn second_material_splits_group() {
    let m = parse("v 0 0 0\nv 1 0 0\nv 0 1 0\ng part\nusemtl A\nf 1 2 3\nusemtl B\nf 3 2 1\n");
    let groups = &m.objects[0].groups;
    assert_eq!(groups.len(), 2);
    assert_eq!(groups[0].name, b"part".to_vec());
    assert_eq!(groups[1].name, b"part".to_vec());
    assert_eq!(groups[0].index, 0);
    assert_eq!(groups[1].index, 1);
    assert_eq!(material_name(&groups[0].material), Some(b"A".to_vec()));
    assert_eq!(material_name(&groups[1].material), Some(b"B".to_vec()));
    assert_eq!(groups[0].polys.len(), 1);
    assert_eq!(groups[1].polys.len(), 1);
}

#[test]
fn texture_and_normal_indices() {
    let m = parse("v 0 0 0\nv 1 0 0\nv 0 1 0\nvt 0 0\nvt 1 1\nvn 0 0 1\nf 1/1/1 2//1 3/2\n");
    assert_eq!(m.texture.len(), 2);
    assert_eq!(m.normal.len(), 1);
    assert_eq!(
        m.objects[0].groups[0].polys[0].0,
        vec![IndexTuple(0, Some(0), Some(0)), IndexTuple(1, None, Some(0)), IndexTuple(2, Some(1), None)]
    );
}

#[test]
fn faces_see_only_earlier_vertices() {
    match load_buf(b"v 0 0 0\nf 1 2 1\nv 1 1 1\n") {
        Err(ObjError::MalformedFaceGroup { line_number, group }) => {
            assert_eq!(line_number, 1);
            assert_eq!(group, b"2".to_vec());
        },
        other => panic!("unexpected: {:?}", other),
    }
}

#[test]
fn malformed_face_group_names_token() {
    match load_buf(b"v 0 0 0\n\nf 1 x/1 1\n") {
        Err(ObjError::MalformedFaceGroup { line_number, group }) => {
            assert_eq!(line_number, 2);
            assert_eq!(group, b"x/1".to_vec());
        },
        other => panic!("unexpected: {:?}", other),
    }
}

#[test]
fn vertex_with_missing_field_fails() {
    match load_buf(b"# comment\nv 1 2\n") {
        Err(ObjError::ArgumentListFailure { line_number, list }) => {
            assert_eq!(line_number, 1);
            assert_eq!(list, vec![b"1".to_vec(), b"2".to_vec()]);
        },
        other => panic!("unexpected: {:?}", other),
    }
}

#[test]
fn vertex_with_bad_number_fails() {
    match load_buf(b"vt 0.5 abc\n") {
        Err(ObjError::ArgumentListFailure { line_number, list }) => {
            assert_eq!(line_number, 0);
            assert_eq!(list, vec![b"0.5".to_vec(), b"abc".to_vec()]);
        },
        other => panic!("unexpected: {:?}", other),
    }
}

#[test]
fn number_syntax_follows_float_parsing() {
    let m = parse("v 1e3 -2.5E-2 .5\nv +3. inf -NaN\n");
    assert_eq!(m.position.len(), 2);
    assert!(load_buf(b"v 1e 0 0\n").is_err());
    assert!(load_buf(b"v . 0 0\n").is_err());
    assert!(load_buf(b"v 1.2.3 0 0\n").is_err());
}

#[test]
fn mtllib_without_name_fails() {
    match load_buf(b"mtllib\n") {
        Err(ObjError::MissingMTLName { line_number }) => assert_eq!(line_number, 0),
        other => panic!("unexpected: {:?}", other),
    }
}

#[test]
fn mtllib_joins_words_with_single_spaces() {
    let m = parse("mtllib my   file.mtl\nmtllib other.mtl\n");
    assert_eq!(m.material_libs.len(), 2);
    assert_eq!(m.material_libs[0].filename, b"my file.mtl".to_vec());
    assert_eq!(m.material_libs[1].filename, b"other.mtl".to_vec());
}

#[test]
fn objects_and_groups_are_flushed() {
    let m = parse(
        "v 0 0 0\nv 1 0 0\nv 0 1 0\nf 1 2 3\no cube  one\ng side\nf 1 2 3\ng\nf 3 2 1\no\n",
    );
    assert_eq!(m.objects.len(), 3);
    assert_eq!(m.objects[0].name, b"default".to_vec());
    assert_eq!(m.objects[0].groups.len(), 1);
    assert_eq!(m.objects[1].name, b"cube  one".to_vec());
    assert_eq!(m.objects[1].groups.len(), 2);
    assert_eq!(m.objects[1].groups[0].name, b"side".to_vec());
    assert_eq!(m.objects[1].groups[1].name, b"default".to_vec());
    assert_eq!(m.objects[2].name, b"default".to_vec());
    assert_eq!(m.objects[2].groups.len(), 0);
}

#[test]
fn empty_input_keeps_default_object() {
    let m = parse("");
    assert_eq!(m.objects.len(), 1);
    assert_eq!(m.objects[0].groups.len(), 0);
    let m = parse("s 1\nl 1 2\nunknown stuff\r\n");
    assert_eq!(m.objects.len(), 1);
}

#[test]
fn usemtl_without_group_starts_default_group() {
    let m = parse("usemtl Red\n");
    assert_eq!(m.objects[0].groups.len(), 1);
    assert_eq!(m.objects[0].groups[0].name, b"default".to_vec());
    assert_eq!(material_name(&m.objects[0].groups[0].material), Some(b"Red".to_vec()));
}

#[test]
fn extension_check() {
    assert!(is_supported_extension(b"obj"));
    assert!(!is_supported_extension(b"mtl"));
    assert!(!is_supported_extension(b"OBJ"));
}

#[test]
fn three_materials_give_three_consecutive_groups() {
    let m = parse("v 0 0 0\nv 1 0 0\nv 0 1 0\ng part\nf 1 2 3\nusemtl A\nf 1 2 3\nusemtl B\nusemtl C\nf 3 2 1\nf 2 1 3\n");
    let groups = &m.objects[0].groups;
    assert_eq!(groups.len(), 3);
    for (k, g) in groups.iter().enumerate() {
        assert_eq!(g.name, b"part".to_vec());
        assert_eq!(g.index, k);
    }
    assert_eq!(material_name(&groups[0].material), Some(b"A".to_vec()));
    assert_eq!(material_name(&groups[1].material), Some(b"B".to_vec()));
    assert_eq!(material_name(&groups[2].material), Some(b"C".to_vec()));
    assert_eq!(groups[0].polys.len(), 2);
    assert_eq!(groups[1].polys.len(), 0);
    assert_eq!(groups[2].polys.len(), 2);
}
