use toy_renderer::mtl::{Mtl, MtlError, MtlMissingType};
use toy_renderer::obj::{load_buf, ObjMaterial};

fn lib(text: &str) -> Mtl {
    let mut l = Mtl::new(b"lib.mtl".to_vec());
    match l.reload(text.as_bytes()) {
        Ok(()) => l,
        Err(e) => panic!("unexpected error: {:?}", e),
    }
}

fn reload_error(text: &str) -> MtlError {
    let mut l = Mtl::new(b"lib.mtl".to_vec());
    match l.reload(text.as_bytes()) {
        Ok(()) => panic!("expected an error"),
        Err(e) => {
            assert_eq!(l.materials.len(), 0);
            e
        },
    }
}

#[test]
fn reads_materials_and_attributes() {
    let l = lib("# header\nnewmtl Red\nKa 0.1 0.2 0.3\nKd 1 0 0\nNs 10\nd 0.5\nillum 2\nmap_Kd my tex.png\nbump b.png\n\nnewmtl Blue\nKd 0 0 1\n");
    assert_eq!(l.materials.len(), 2);
    let red = &l.materials[0];
    assert_eq!(red.name, b"Red".to_vec());
    assert_eq!(red.ka.as_ref().unwrap().z, b"0.3".to_vec());
    assert_eq!(red.kd.as_ref().unwrap().x, b"1".to_vec());
    assert_eq!(red.ns, Some(b"10".to_vec()));
    assert_eq!(red.d, Some(b"0.5".to_vec()));
    assert_eq!(red.illum, Some(2));
    assert_eq!(red.map_kd, Some(b"my tex.png".to_vec()));
    assert_eq!(red.map_bump, Some(b"b.png".to_vec()));
    assert!(red.ks.is_none());
    assert_eq!(l.materials[1].name, b"Blue".to_vec());
    assert_eq!(l.materials[1].kd.as_ref().unwrap().z, b"1".to_vec());
}

#[test]
fn attributes_before_first_material_are_skipped() {
    let l = lib("Kd 1 1 1\nnewmtl A\n");
    assert_eq!(l.materials.len(), 1);
    assert!(l.materials[0].kd.is_none());
}

#[test]
fn unknown_instruction_fails() {
    match reload_error("newmtl A\nfoo 1\n") {
        MtlError::InvalidInstruction(w) => assert_eq!(w, b"foo".to_vec()),
        other => panic!("unexpected: {:?}", other),
    }
}

#[test]
fn bad_values_fail() {
    match reload_error("newmtl A\nKd 1 x 0\n") {
        MtlError::InvalidValue(w) => assert_eq!(w, b"1 x 0".to_vec()),
        other => panic!("unexpected: {:?}", other),
    }
    match reload_error("newmtl A\nKd 1 0\n") {
        MtlError::InvalidValue(w) => assert_eq!(w, b"1 0".to_vec()),
        other => panic!("unexpected: {:?}", other),
    }
    match reload_error("newmtl A\nillum 2.5\n") {
        MtlError::InvalidValue(w) => assert_eq!(w, b"2.5".to_vec()),
        other => panic!("unexpected: {:?}", other),
    }
    match reload_error("newmtl A\nillum 3000000000\n") {
        MtlError::InvalidValue(w) => assert_eq!(w, b"3000000000".to_vec()),
        other => panic!("unexpected: {:?}", other),
    }
}

#[test]
fn missing_values_fail() {
    match reload_error("newmtl\n") {
        MtlError::MissingMaterialName => {},
        other => panic!("unexpected: {:?}", other),
    }
    match reload_error("newmtl A\nNs\n") {
        MtlError::MissingValue(t) => assert_eq!(t, MtlMissingType::F32),
        other => panic!("unexpected: {:?}", other),
    }
    match reload_error("newmtl A\nillum\n") {
        MtlError::MissingValue(t) => assert_eq!(t, MtlMissingType::I32),
        other => panic!("unexpected: {:?}", other),
    }
    match reload_error("newmtl A\nmap_Ka\n") {
        MtlError::MissingValue(t) => assert_eq!(t, MtlMissingType::String),
        other => panic!("unexpected: {:?}", other),
    }
}

#[test]
fn first_library_defining_a_name_wins() {
    let mut m = load_buf(b"mtllib a.mtl\nmtllib b.mtl\nv 0 0 0\nv 1 0 0\nv 0 1 0\nusemtl Red\nf 1 2 3\ng other\nusemtl Green\nf 1 2 3\n").unwrap();
    let sources = vec![
        Some(b"newmtl Red\nKd 1 0 0\n".to_vec()),
        Some(b"newmtl Red\nKd 0 1 0\nnewmtl Green\nKd 0 1 0\n".to_vec()),
    ];
    assert!(m.load_mtls_fn(&sources).is_ok());
    let groups = &m.objects[0].groups;
    assert_eq!(groups.len(), 2);
    match &groups[0].material {
        Some(ObjMaterial::Mtl(red)) => {
            assert_eq!(red.name, b"Red".to_vec());
            assert_eq!(red.kd.as_ref().unwrap().x, b"1".to_vec());
            assert_eq!(red.kd.as_ref().unwrap().y, b"0".to_vec());
        },
        other => panic!("unexpected: {:?}", other),
    }
    match &groups[1].material {
        Some(ObjMaterial::Mtl(green)) => assert_eq!(green.name, b"Green".to_vec()),
        other => panic!("unexpected: {:?}", other),
    }
}

#[test]
fn failing_libraries_are_reported_and_others_still_bind() {
    let mut m = load_buf(b"mtllib a.mtl\nmtllib b.mtl\nmtllib c.mtl\nusemtl Blue\nusemtl Missing\n").unwrap();
    let sources = vec![None, Some(b"newmtl Blue\n".to_vec()), Some(b"bogus\n".to_vec())];
    match m.load_mtls_fn(&sources) {
        Err(e) => {
            assert_eq!(e.0.len(), 2);
            assert_eq!(e.0[0].0, b"a.mtl".to_vec());
            assert!(matches!(e.0[0].1, MtlError::Io));
            assert_eq!(e.0[1].0, b"c.mtl".to_vec());
            assert!(matches!(e.0[1].1, MtlError::InvalidInstruction(_)));
        },
        Ok(()) => panic!("expected errors"),
    }
    assert_eq!(m.material_libs[1].materials.len(), 1);
    let groups = &m.objects[0].groups;
    assert_eq!(groups.len(), 2);
    assert!(matches!(groups[0].material, Some(ObjMaterial::Mtl(_))));
    match &groups[1].material {
        Some(ObjMaterial::Ref(n)) => assert_eq!(n, &b"Missing".to_vec()),
        other => panic!("unexpected: {:?}", other),
    }
}

#[test]
fn unreadable_library_binds_nothing_on_reload() {
    let mut m = load_buf(b"mtllib a.mtl\nusemtl Red\n").unwrap();
    assert!(m.load_mtls_fn(&vec![Some(b"newmtl Blue\n".to_vec())]).is_ok());
    assert_eq!(m.material_libs[0].materials.len(), 1);
    let mut m2 = load_buf(b"mtllib a.mtl\nusemtl Red\n").unwrap();
    assert!(m2.load_mtls_fn(&vec![Some(b"newmtl Red\n".to_vec())]).is_ok());
    assert!(matches!(m2.objects[0].groups[0].material, Some(ObjMaterial::Mtl(_))));

    let mut m3 = load_buf(b"mtllib a.mtl\nusemtl Red\n").unwrap();
    let mut lib = toy_renderer::mtl::Mtl::new(b"a.mtl".to_vec());
    lib.reload(b"newmtl Red\n").unwrap();
    m3.material_libs[0] = lib;
    assert_eq!(m3.material_libs[0].materials.len(), 1);
    match m3.load_mtls_fn(&vec![None]) {
        Err(e) => {
            assert_eq!(e.0.len(), 1);
            assert!(matches!(e.0[0].1, MtlError::Io));
        },
        Ok(()) => panic!("expected an error"),
    }
    assert_eq!(m3.material_libs[0].materials.len(), 0);
    match &m3.objects[0].groups[0].material {
        Some(ObjMaterial::Ref(n)) => assert_eq!(n, &b"Red".to_vec()),
        other => panic!("unexpected: {:?}", other),
    }
}
