//! Materials and the material-library format.
use vstd::prelude::*;
use crate::obj::{copy_bytes, RawVec3};
use crate::text::{
    equals_literal, is_number, is_number_text, join_from, join_words, lemma_line_end, line_end,
    next_line_end, copy_range, parse_int, parse_isize, seqs_of, split_words, words,
};

verus! {

/// One material of a material library. Numeric values are kept as the text
/// of the file, each checked to be a well-formed number.
#[derive(Debug)]
pub struct Material {
    pub name: Vec<u8>,
    pub ka: Option<RawVec3>,
    pub kd: Option<RawVec3>,
    pub ks: Option<RawVec3>,
    pub ke: Option<RawVec3>,
    pub km: Option<Vec<u8>>,
    pub tf: Option<RawVec3>,
    pub ns: Option<Vec<u8>>,
    pub ni: Option<Vec<u8>>,
    pub tr: Option<Vec<u8>>,
    pub d: Option<Vec<u8>>,
    pub illum: Option<i32>,
    pub map_ka: Option<Vec<u8>>,
    pub map_kd: Option<Vec<u8>>,
    pub map_ks: Option<Vec<u8>>,
    pub map_ke: Option<Vec<u8>>,
    pub map_ns: Option<Vec<u8>>,
    pub map_d: Option<Vec<u8>>,
    pub map_bump: Option<Vec<u8>>,
    pub map_refl: Option<Vec<u8>>,
}

/// The contents of a `Material`.
pub struct MaterialView {
    pub name: Seq<u8>,
    pub ka: Option<Seq<Seq<u8>>>,
    pub kd: Option<Seq<Seq<u8>>>,
    pub ks: Option<Seq<Seq<u8>>>,
    pub ke: Option<Seq<Seq<u8>>>,
    pub km: Option<Seq<u8>>,
    pub tf: Option<Seq<Seq<u8>>>,
    pub ns: Option<Seq<u8>>,
    pub ni: Option<Seq<u8>>,
    pub tr: Option<Seq<u8>>,
    pub d: Option<Seq<u8>>,
    pub illum: Option<i32>,
    pub map_ka: Option<Seq<u8>>,
    pub map_kd: Option<Seq<u8>>,
    pub map_ks: Option<Seq<u8>>,
    pub map_ke: Option<Seq<u8>>,
    pub map_ns: Option<Seq<u8>>,
    pub map_d: Option<Seq<u8>>,
    pub map_bump: Option<Seq<u8>>,
    pub map_refl: Option<Seq<u8>>,
}

/// The contents of an optional byte string.
pub open spec fn opt_text(o: Option<Vec<u8>>) -> Option<Seq<u8>> {
    match o {
        Some(v) => Some(v@),
        None => None,
    }
}

/// The contents of an optional triple of numeric fields.
pub open spec fn opt_vec3(o: Option<RawVec3>) -> Option<Seq<Seq<u8>>> {
    match o {
        Some(v) => Some(v@),
        None => None,
    }
}

impl View for Material {
    type V = MaterialView;

    open spec fn view(&self) -> MaterialView {
        MaterialView {
            name: self.name@,
            ka: opt_vec3(self.ka),
            kd: opt_vec3(self.kd),
            ks: opt_vec3(self.ks),
            ke: opt_vec3(self.ke),
            km: opt_text(self.km),
            tf: opt_vec3(self.tf),
            ns: opt_text(self.ns),
            ni: opt_text(self.ni),
            tr: opt_text(self.tr),
            d: opt_text(self.d),
            illum: self.illum,
            map_ka: opt_text(self.map_ka),
            map_kd: opt_text(self.map_kd),
            map_ks: opt_text(self.map_ks),
            map_ke: opt_text(self.map_ke),
            map_ns: opt_text(self.map_ns),
            map_d: opt_text(self.map_d),
            map_bump: opt_text(self.map_bump),
            map_refl: opt_text(self.map_refl),
        }
    }
}

/// A material with the given name and no attributes.
pub open spec fn empty_material(name: Seq<u8>) -> MaterialView {
    MaterialView {
        name,
        ka: None,
        kd: None,
        ks: None,
        ke: None,
        km: None,
        tf: None,
        ns: None,
        ni: None,
        tr: None,
        d: None,
        illum: None,
        map_ka: None,
        map_kd: None,
        map_ks: None,
        map_ke: None,
        map_ns: None,
        map_d: None,
        map_bump: None,
        map_refl: None,
    }
}

impl Material {
    /// A material with the given name and no attributes.
    pub fn new(name: Vec<u8>) -> (r: Material)
        ensures
            r@ == empty_material(name@),
    {
        Material {
            name,
            ka: None,
            kd: None,
            ks: None,
            ke: None,
            km: None,
            tf: None,
            ns: None,
            ni: None,
            tr: None,
            d: None,
            illum: None,
            map_ka: None,
            map_kd: None,
            map_ks: None,
            map_ke: None,
            map_ns: None,
            map_d: None,
            map_bump: None,
            map_refl: None,
        }
    }
}

/// A material library named by `mtllib`, with the materials loaded from it.
#[derive(Debug)]
pub struct Mtl {
    pub filename: Vec<u8>,
    pub materials: Vec<std::rc::Rc<Material>>,
}

/// The contents of an `Mtl`.
pub struct MtlView {
    pub filename: Seq<u8>,
    pub materials: Seq<MaterialView>,
}

impl View for Mtl {
    type V = MtlView;

    open spec fn view(&self) -> MtlView {
        MtlView {
            filename: self.filename@,
            materials: self.materials@.map_values(|m: std::rc::Rc<Material>| (*m)@),
        }
    }
}

impl Mtl {
    /// An empty library with the given file name.
    pub fn new(filename: Vec<u8>) -> (r: Mtl)
        ensures
            r@.filename == filename@,
            r@.materials.len() == 0,
    {
        Mtl { filename, materials: Vec::new() }
    }
}


/// The type of a value that an instruction lacks.
#[derive(Clone, Copy, Debug, PartialEq, Eq, Structural)]
pub enum MtlMissingType {
    I32,
    F32,
    String,
}

/// Errors of the material parser.
#[derive(Debug)]
pub enum MtlError {
    /// The library could not be read.
    Io,
    /// A directive that the format does not have.
    InvalidInstruction(Vec<u8>),
    /// A value that could not be read.
    InvalidValue(Vec<u8>),
    /// `newmtl` without a name.
    MissingMaterialName,
    /// An instruction without its value.
    MissingValue(MtlMissingType),
}

/// The contents of an `MtlError`.
pub enum MtlErrorView {
    Io,
    InvalidInstruction(Seq<u8>),
    InvalidValue(Seq<u8>),
    MissingMaterialName,
    MissingValue(MtlMissingType),
}

impl View for MtlError {
    type V = MtlErrorView;

    open spec fn view(&self) -> MtlErrorView {
        match self {
            MtlError::Io => MtlErrorView::Io,
            MtlError::InvalidInstruction(w) => MtlErrorView::InvalidInstruction(w@),
            MtlError::InvalidValue(w) => MtlErrorView::InvalidValue(w@),
            MtlError::MissingMaterialName => MtlErrorView::MissingMaterialName,
            MtlError::MissingValue(t) => MtlErrorView::MissingValue(*t),
        }
    }
}

/// Three numbers after the directive; a missing or malformed one makes the
/// value invalid.
pub open spec fn vec_value(ws: Seq<Seq<u8>>) -> Result<Seq<Seq<u8>>, MtlErrorView> {
    if ws.len() < 4 {
        Err(MtlErrorView::InvalidValue(join_words(ws.subrange(1, ws.len() as int))))
    } else if is_number_text(ws[1]) && is_number_text(ws[2]) && is_number_text(ws[3]) {
        Ok(ws.subrange(1, 4))
    } else {
        Err(MtlErrorView::InvalidValue(join_words(ws.subrange(1, 4))))
    }
}

/// One number after the directive.
pub open spec fn scalar_value(ws: Seq<Seq<u8>>) -> Result<Seq<u8>, MtlErrorView> {
    if ws.len() < 2 {
        Err(MtlErrorView::MissingValue(MtlMissingType::F32))
    } else if is_number_text(ws[1]) {
        Ok(ws[1])
    } else {
        Err(MtlErrorView::InvalidValue(ws[1]))
    }
}

/// One `i32` after the directive.
pub open spec fn int_value(ws: Seq<Seq<u8>>) -> Result<i32, MtlErrorView> {
    if ws.len() < 2 {
        Err(MtlErrorView::MissingValue(MtlMissingType::I32))
    } else {
        match parse_int(ws[1]) {
            Some(v) => if i32::MIN <= v <= i32::MAX {
                Ok(v as i32)
            } else {
                Err(MtlErrorView::InvalidValue(ws[1]))
            },
            None => Err(MtlErrorView::InvalidValue(ws[1])),
        }
    }
}

/// The rest of the line, its words joined with single spaces.
pub open spec fn text_value(ws: Seq<Seq<u8>>) -> Result<Seq<u8>, MtlErrorView> {
    if ws.len() < 2 {
        Err(MtlErrorView::MissingValue(MtlMissingType::String))
    } else {
        Ok(join_words(ws.subrange(1, ws.len() as int)))
    }
}

/// Reads the value that follows the directive `ws[0]`.
pub fn get_vec(ws: &Vec<Vec<u8>>) -> (r: Result<RawVec3, MtlError>)
    requires
        ws@.len() >= 1,
    ensures
        match r {
            Ok(v) => vec_value(seqs_of(ws@)) == Ok::<Seq<Seq<u8>>, MtlErrorView>(v@),
            Err(e) => vec_value(seqs_of(ws@)) == Err::<Seq<Seq<u8>>, MtlErrorView>(e@),
        },
{
    if ws.len() < 4 {
        return Err(MtlError::InvalidValue(join_from(ws, 1, ws.len())));
    }
    assert(seqs_of(ws@)[1] == ws@[1]@ && seqs_of(ws@)[2] == ws@[2]@ && seqs_of(ws@)[3] == ws@[3]@);
    if is_number(ws[1].as_slice()) && is_number(ws[2].as_slice()) && is_number(ws[3].as_slice()) {
        let v = RawVec3 { x: copy_bytes(&ws[1]), y: copy_bytes(&ws[2]), z: copy_bytes(&ws[3]) };
        assert(v@ =~= seqs_of(ws@).subrange(1, 4));
        Ok(v)
    } else {
        Err(MtlError::InvalidValue(join_from(ws, 1, 4)))
    }
}

/// Reads the value that follows the directive `ws[0]`.
pub fn get_f32(ws: &Vec<Vec<u8>>) -> (r: Result<Vec<u8>, MtlError>)
    ensures
        match r {
            Ok(v) => scalar_value(seqs_of(ws@)) == Ok::<Seq<u8>, MtlErrorView>(v@),
            Err(e) => scalar_value(seqs_of(ws@)) == Err::<Seq<u8>, MtlErrorView>(e@),
        },
{
    if ws.len() < 2 {
        return Err(MtlError::MissingValue(MtlMissingType::F32));
    }
    assert(seqs_of(ws@)[1] == ws@[1]@);
    if is_number(ws[1].as_slice()) {
        Ok(copy_bytes(&ws[1]))
    } else {
        Err(MtlError::InvalidValue(copy_bytes(&ws[1])))
    }
}

/// Reads the value that follows the directive `ws[0]`.
pub fn get_i32(ws: &Vec<Vec<u8>>) -> (r: Result<i32, MtlError>)
    ensures
        match r {
            Ok(v) => int_value(seqs_of(ws@)) == Ok::<i32, MtlErrorView>(v),
            Err(e) => int_value(seqs_of(ws@)) == Err::<i32, MtlErrorView>(e@),
        },
{
    if ws.len() < 2 {
        return Err(MtlError::MissingValue(MtlMissingType::I32));
    }
    assert(seqs_of(ws@)[1] == ws@[1]@);
    match parse_isize(ws[1].as_slice()) {
        Some(v) => if i32::MIN as isize <= v && v <= i32::MAX as isize {
            Ok(v as i32)
        } else {
            Err(MtlError::InvalidValue(copy_bytes(&ws[1])))
        },
        None => Err(MtlError::InvalidValue(copy_bytes(&ws[1]))),
    }
}

/// Reads the value that follows the directive `ws[0]`.
pub fn into_string(ws: &Vec<Vec<u8>>) -> (r: Result<Vec<u8>, MtlError>)
    ensures
        match r {
            Ok(v) => text_value(seqs_of(ws@)) == Ok::<Seq<u8>, MtlErrorView>(v@),
            Err(e) => text_value(seqs_of(ws@)) == Err::<Seq<u8>, MtlErrorView>(e@),
        },
{
    if ws.len() < 2 {
        return Err(MtlError::MissingValue(MtlMissingType::String));
    }
    Ok(join_from(ws, 1, ws.len()))
}

/// The directives of the material format.
#[derive(Clone, Copy, Debug, PartialEq, Eq, Structural)]
pub enum MtlKeyword {
    NewMtl,
    Ka,
    Kd,
    Ks,
    Ke,
    Ns,
    Ni,
    Km,
    D,
    Tr,
    Tf,
    Illum,
    MapKa,
    MapKd,
    MapKs,
    MapD,
    MapRefl,
    MapBump,
    Other,
}

/// The directive words of the material format.
pub open spec fn kw_newmtl() -> Seq<u8> {
    seq![0x6eu8, 0x65u8, 0x77u8, 0x6du8, 0x74u8, 0x6cu8]
}

pub open spec fn kw_ka() -> Seq<u8> {
    seq![0x4bu8, 0x61u8]
}

pub open spec fn kw_kd() -> Seq<u8> {
    seq![0x4bu8, 0x64u8]
}

pub open spec fn kw_ks() -> Seq<u8> {
    seq![0x4bu8, 0x73u8]
}

pub open spec fn kw_ke() -> Seq<u8> {
    seq![0x4bu8, 0x65u8]
}

pub open spec fn kw_ns() -> Seq<u8> {
    seq![0x4eu8, 0x73u8]
}

pub open spec fn kw_ni() -> Seq<u8> {
    seq![0x4eu8, 0x69u8]
}

pub open spec fn kw_km() -> Seq<u8> {
    seq![0x4bu8, 0x6du8]
}

pub open spec fn kw_d() -> Seq<u8> {
    seq![0x64u8]
}

pub open spec fn kw_tr() -> Seq<u8> {
    seq![0x54u8, 0x72u8]
}

pub open spec fn kw_tf() -> Seq<u8> {
    seq![0x54u8, 0x66u8]
}

pub open spec fn kw_illum() -> Seq<u8> {
    seq![0x69u8, 0x6cu8, 0x6cu8, 0x75u8, 0x6du8]
}

pub open spec fn kw_map_ka() -> Seq<u8> {
    seq![0x6du8, 0x61u8, 0x70u8, 0x5fu8, 0x4bu8, 0x61u8]
}

pub open spec fn kw_map_kd() -> Seq<u8> {
    seq![0x6du8, 0x61u8, 0x70u8, 0x5fu8, 0x4bu8, 0x64u8]
}

pub open spec fn kw_map_ks() -> Seq<u8> {
    seq![0x6du8, 0x61u8, 0x70u8, 0x5fu8, 0x4bu8, 0x73u8]
}

pub open spec fn kw_map_d() -> Seq<u8> {
    seq![0x6du8, 0x61u8, 0x70u8, 0x5fu8, 0x64u8]
}

pub open spec fn kw_map_refl() -> Seq<u8> {
    seq![0x6du8, 0x61u8, 0x70u8, 0x5fu8, 0x72u8, 0x65u8, 0x66u8, 0x6cu8]
}

pub open spec fn kw_refl() -> Seq<u8> {
    seq![0x72u8, 0x65u8, 0x66u8, 0x6cu8]
}

pub open spec fn kw_map_bump() -> Seq<u8> {
    seq![0x6du8, 0x61u8, 0x70u8, 0x5fu8, 0x62u8, 0x75u8, 0x6du8, 0x70u8]
}

pub open spec fn kw_map_bump_upper() -> Seq<u8> {
    seq![0x6du8, 0x61u8, 0x70u8, 0x5fu8, 0x42u8, 0x75u8, 0x6du8, 0x70u8]
}

pub open spec fn kw_bump() -> Seq<u8> {
    seq![0x62u8, 0x75u8, 0x6du8, 0x70u8]
}

/// The directive that a word names.
pub open spec fn keyword_of(w: Seq<u8>) -> MtlKeyword {
    if w == kw_newmtl() {
        MtlKeyword::NewMtl
    } else if w == kw_ka() {
        MtlKeyword::Ka
    } else if w == kw_kd() {
        MtlKeyword::Kd
    } else if w == kw_ks() {
        MtlKeyword::Ks
    } else if w == kw_ke() {
        MtlKeyword::Ke
    } else if w == kw_ns() {
        MtlKeyword::Ns
    } else if w == kw_ni() {
        MtlKeyword::Ni
    } else if w == kw_km() {
        MtlKeyword::Km
    } else if w == kw_d() {
        MtlKeyword::D
    } else if w == kw_tr() {
        MtlKeyword::Tr
    } else if w == kw_tf() {
        MtlKeyword::Tf
    } else if w == kw_illum() {
        MtlKeyword::Illum
    } else if w == kw_map_ka() {
        MtlKeyword::MapKa
    } else if w == kw_map_kd() {
        MtlKeyword::MapKd
    } else if w == kw_map_ks() {
        MtlKeyword::MapKs
    } else if w == kw_map_d() {
        MtlKeyword::MapD
    } else if w == kw_map_refl() || w == kw_refl() {
        MtlKeyword::MapRefl
    } else if w == kw_map_bump() || w == kw_map_bump_upper() || w == kw_bump() {
        MtlKeyword::MapBump
    } else {
        MtlKeyword::Other
    }
}

/// The directive that a word names.
pub fn keyword(w: &[u8]) -> (r: MtlKeyword)
    ensures
        r == keyword_of(w@),
{
    let l_newmtl: [u8; 6] = [0x6e, 0x65, 0x77, 0x6d, 0x74, 0x6c];
    assert(l_newmtl@ =~= kw_newmtl());
    let l_ka: [u8; 2] = [0x4b, 0x61];
    assert(l_ka@ =~= kw_ka());
    let l_kd: [u8; 2] = [0x4b, 0x64];
    assert(l_kd@ =~= kw_kd());
    let l_ks: [u8; 2] = [0x4b, 0x73];
    assert(l_ks@ =~= kw_ks());
    let l_ke: [u8; 2] = [0x4b, 0x65];
    assert(l_ke@ =~= kw_ke());
    let l_ns: [u8; 2] = [0x4e, 0x73];
    assert(l_ns@ =~= kw_ns());
    let l_ni: [u8; 2] = [0x4e, 0x69];
    assert(l_ni@ =~= kw_ni());
    let l_km: [u8; 2] = [0x4b, 0x6d];
    assert(l_km@ =~= kw_km());
    let l_d: [u8; 1] = [0x64];
    assert(l_d@ =~= kw_d());
    let l_tr: [u8; 2] = [0x54, 0x72];
    assert(l_tr@ =~= kw_tr());
    let l_tf: [u8; 2] = [0x54, 0x66];
    assert(l_tf@ =~= kw_tf());
    let l_illum: [u8; 5] = [0x69, 0x6c, 0x6c, 0x75, 0x6d];
    assert(l_illum@ =~= kw_illum());
    let l_map_ka: [u8; 6] = [0x6d, 0x61, 0x70, 0x5f, 0x4b, 0x61];
    assert(l_map_ka@ =~= kw_map_ka());
    let l_map_kd: [u8; 6] = [0x6d, 0x61, 0x70, 0x5f, 0x4b, 0x64];
    assert(l_map_kd@ =~= kw_map_kd());
    let l_map_ks: [u8; 6] = [0x6d, 0x61, 0x70, 0x5f, 0x4b, 0x73];
    assert(l_map_ks@ =~= kw_map_ks());
    let l_map_d: [u8; 5] = [0x6d, 0x61, 0x70, 0x5f, 0x64];
    assert(l_map_d@ =~= kw_map_d());
    let l_map_refl: [u8; 8] = [0x6d, 0x61, 0x70, 0x5f, 0x72, 0x65, 0x66, 0x6c];
    assert(l_map_refl@ =~= kw_map_refl());
    let l_refl: [u8; 4] = [0x72, 0x65, 0x66, 0x6c];
    assert(l_refl@ =~= kw_refl());
    let l_map_bump: [u8; 8] = [0x6d, 0x61, 0x70, 0x5f, 0x62, 0x75, 0x6d, 0x70];
    assert(l_map_bump@ =~= kw_map_bump());
    let l_map_bump_upper: [u8; 8] = [0x6d, 0x61, 0x70, 0x5f, 0x42, 0x75, 0x6d, 0x70];
    assert(l_map_bump_upper@ =~= kw_map_bump_upper());
    let l_bump: [u8; 4] = [0x62, 0x75, 0x6d, 0x70];
    assert(l_bump@ =~= kw_bump());
    if equals_literal(w, &l_newmtl, Ghost(kw_newmtl())) {
        MtlKeyword::NewMtl
    } else if equals_literal(w, &l_ka, Ghost(kw_ka())) {
        MtlKeyword::Ka
    } else if equals_literal(w, &l_kd, Ghost(kw_kd())) {
        MtlKeyword::Kd
    } else if equals_literal(w, &l_ks, Ghost(kw_ks())) {
        MtlKeyword::Ks
    } else if equals_literal(w, &l_ke, Ghost(kw_ke())) {
        MtlKeyword::Ke
    } else if equals_literal(w, &l_ns, Ghost(kw_ns())) {
        MtlKeyword::Ns
    } else if equals_literal(w, &l_ni, Ghost(kw_ni())) {
        MtlKeyword::Ni
    } else if equals_literal(w, &l_km, Ghost(kw_km())) {
        MtlKeyword::Km
    } else if equals_literal(w, &l_d, Ghost(kw_d())) {
        MtlKeyword::D
    } else if equals_literal(w, &l_tr, Ghost(kw_tr())) {
        MtlKeyword::Tr
    } else if equals_literal(w, &l_tf, Ghost(kw_tf())) {
        MtlKeyword::Tf
    } else if equals_literal(w, &l_illum, Ghost(kw_illum())) {
        MtlKeyword::Illum
    } else if equals_literal(w, &l_map_ka, Ghost(kw_map_ka())) {
        MtlKeyword::MapKa
    } else if equals_literal(w, &l_map_kd, Ghost(kw_map_kd())) {
        MtlKeyword::MapKd
    } else if equals_literal(w, &l_map_ks, Ghost(kw_map_ks())) {
        MtlKeyword::MapKs
    } else if equals_literal(w, &l_map_d, Ghost(kw_map_d())) {
        MtlKeyword::MapD
    } else if equals_literal(w, &l_map_refl, Ghost(kw_map_refl())) || equals_literal(w, &l_refl, Ghost(kw_refl())) {
        MtlKeyword::MapRefl
    } else if equals_literal(w, &l_map_bump, Ghost(kw_map_bump())) || equals_literal(w, &l_map_bump_upper, Ghost(kw_map_bump_upper())) || equals_literal(w, &l_bump, Ghost(kw_bump())) {
        MtlKeyword::MapBump
    } else {
        MtlKeyword::Other
    }
}

/// The material with the attribute that the line sets.
pub open spec fn apply_attr(m: MaterialView, key: MtlKeyword, ws: Seq<Seq<u8>>) -> Result<MaterialView, MtlErrorView> {
    match key {
        MtlKeyword::Ka => match vec_value(ws) {
            Ok(v) => Ok(MaterialView { ka: Some(v), ..m }),
            Err(e) => Err(e),
        },
        MtlKeyword::Kd => match vec_value(ws) {
            Ok(v) => Ok(MaterialView { kd: Some(v), ..m }),
            Err(e) => Err(e),
        },
        MtlKeyword::Ks => match vec_value(ws) {
            Ok(v) => Ok(MaterialView { ks: Some(v), ..m }),
            Err(e) => Err(e),
        },
        MtlKeyword::Ke => match vec_value(ws) {
            Ok(v) => Ok(MaterialView { ke: Some(v), ..m }),
            Err(e) => Err(e),
        },
        MtlKeyword::Ns => match scalar_value(ws) {
            Ok(v) => Ok(MaterialView { ns: Some(v), ..m }),
            Err(e) => Err(e),
        },
        MtlKeyword::Ni => match scalar_value(ws) {
            Ok(v) => Ok(MaterialView { ni: Some(v), ..m }),
            Err(e) => Err(e),
        },
        MtlKeyword::Km => match scalar_value(ws) {
            Ok(v) => Ok(MaterialView { km: Some(v), ..m }),
            Err(e) => Err(e),
        },
        MtlKeyword::D => match scalar_value(ws) {
            Ok(v) => Ok(MaterialView { d: Some(v), ..m }),
            Err(e) => Err(e),
        },
        MtlKeyword::Tr => match scalar_value(ws) {
            Ok(v) => Ok(MaterialView { tr: Some(v), ..m }),
            Err(e) => Err(e),
        },
        MtlKeyword::Tf => match vec_value(ws) {
            Ok(v) => Ok(MaterialView { tf: Some(v), ..m }),
            Err(e) => Err(e),
        },
        MtlKeyword::Illum => match int_value(ws) {
            Ok(v) => Ok(MaterialView { illum: Some(v), ..m }),
            Err(e) => Err(e),
        },
        MtlKeyword::MapKa => match text_value(ws) {
            Ok(v) => Ok(MaterialView { map_ka: Some(v), ..m }),
            Err(e) => Err(e),
        },
        MtlKeyword::MapKd => match text_value(ws) {
            Ok(v) => Ok(MaterialView { map_kd: Some(v), ..m }),
            Err(e) => Err(e),
        },
        MtlKeyword::MapKs => match text_value(ws) {
            Ok(v) => Ok(MaterialView { map_ks: Some(v), ..m }),
            Err(e) => Err(e),
        },
        MtlKeyword::MapD => match text_value(ws) {
            Ok(v) => Ok(MaterialView { map_d: Some(v), ..m }),
            Err(e) => Err(e),
        },
        MtlKeyword::MapRefl => match text_value(ws) {
            Ok(v) => Ok(MaterialView { map_refl: Some(v), ..m }),
            Err(e) => Err(e),
        },
        MtlKeyword::MapBump => match text_value(ws) {
            Ok(v) => Ok(MaterialView { map_bump: Some(v), ..m }),
            Err(e) => Err(e),
        },
        _ => Ok(m),
    }
}

/// Sets the attribute that the line gives.
fn set_attr(m: Material, key: MtlKeyword, ws: &Vec<Vec<u8>>) -> (r: Result<Material, MtlError>)
    requires
        ws@.len() >= 1,
    ensures
        match r {
            Ok(m2) => apply_attr(m@, key, seqs_of(ws@)) == Ok::<MaterialView, MtlErrorView>(m2@),
            Err(e) => apply_attr(m@, key, seqs_of(ws@)) == Err::<MaterialView, MtlErrorView>(e@),
        },
{
    let mut m = m;
    match key {
        MtlKeyword::Ka => match get_vec(ws) {
            Ok(v) => {
                m.ka = Some(v);
                Ok(m)
            },
            Err(e) => Err(e),
        },
        MtlKeyword::Kd => match get_vec(ws) {
            Ok(v) => {
                m.kd = Some(v);
                Ok(m)
            },
            Err(e) => Err(e),
        },
        MtlKeyword::Ks => match get_vec(ws) {
            Ok(v) => {
                m.ks = Some(v);
                Ok(m)
            },
            Err(e) => Err(e),
        },
        MtlKeyword::Ke => match get_vec(ws) {
            Ok(v) => {
                m.ke = Some(v);
                Ok(m)
            },
            Err(e) => Err(e),
        },
        MtlKeyword::Ns => match get_f32(ws) {
            Ok(v) => {
                m.ns = Some(v);
                Ok(m)
            },
            Err(e) => Err(e),
        },
        MtlKeyword::Ni => match get_f32(ws) {
            Ok(v) => {
                m.ni = Some(v);
                Ok(m)
            },
            Err(e) => Err(e),
        },
        MtlKeyword::Km => match get_f32(ws) {
            Ok(v) => {
                m.km = Some(v);
                Ok(m)
            },
            Err(e) => Err(e),
        },
        MtlKeyword::D => match get_f32(ws) {
            Ok(v) => {
                m.d = Some(v);
                Ok(m)
            },
            Err(e) => Err(e),
        },
        MtlKeyword::Tr => match get_f32(ws) {
            Ok(v) => {
                m.tr = Some(v);
                Ok(m)
            },
            Err(e) => Err(e),
        },
        MtlKeyword::Tf => match get_vec(ws) {
            Ok(v) => {
                m.tf = Some(v);
                Ok(m)
            },
            Err(e) => Err(e),
        },
        MtlKeyword::Illum => match get_i32(ws) {
            Ok(v) => {
                m.illum = Some(v);
                Ok(m)
            },
            Err(e) => Err(e),
        },
        MtlKeyword::MapKa => match into_string(ws) {
            Ok(v) => {
                m.map_ka = Some(v);
                Ok(m)
            },
            Err(e) => Err(e),
        },
        MtlKeyword::MapKd => match into_string(ws) {
            Ok(v) => {
                m.map_kd = Some(v);
                Ok(m)
            },
            Err(e) => Err(e),
        },
        MtlKeyword::MapKs => match into_string(ws) {
            Ok(v) => {
                m.map_ks = Some(v);
                Ok(m)
            },
            Err(e) => Err(e),
        },
        MtlKeyword::MapD => match into_string(ws) {
            Ok(v) => {
                m.map_d = Some(v);
                Ok(m)
            },
            Err(e) => Err(e),
        },
        MtlKeyword::MapRefl => match into_string(ws) {
            Ok(v) => {
                m.map_refl = Some(v);
                Ok(m)
            },
            Err(e) => Err(e),
        },
        MtlKeyword::MapBump => match into_string(ws) {
            Ok(v) => {
                m.map_bump = Some(v);
                Ok(m)
            },
            Err(e) => Err(e),
        },
        _ => Ok(m),
    }
}

/// What the material parser holds between lines: the finished materials and
/// the one being read.
pub struct MtlState {
    pub done: Seq<MaterialView>,
    pub current: Option<MaterialView>,
}

/// The finished materials followed by the current one, if any.
pub open spec fn with_current(done: Seq<MaterialView>, current: Option<MaterialView>) -> Seq<MaterialView> {
    match current {
        Some(m) => done.push(m),
        None => done,
    }
}

/// The effect of one line of a material library. Attribute lines before the
/// first `newmtl` are skipped; comments start with `#`.
pub open spec fn mtl_step(st: MtlState, line: Seq<u8>) -> Result<MtlState, MtlErrorView> {
    let ws = words(line);
    if ws.len() == 0 {
        Ok(st)
    } else {
        let key = keyword_of(ws[0]);
        if key == MtlKeyword::NewMtl {
            if ws.len() < 2 {
                Err(MtlErrorView::MissingMaterialName)
            } else {
                Ok(MtlState { done: with_current(st.done, st.current), current: Some(empty_material(ws[1])) })
            }
        } else if key == MtlKeyword::Other {
            if ws[0].len() > 0 && ws[0][0] == 0x23u8 {
                Ok(st)
            } else {
                Err(MtlErrorView::InvalidInstruction(ws[0]))
            }
        } else {
            match st.current {
                None => Ok(st),
                Some(m) => match apply_attr(m, key, ws) {
                    Ok(m2) => Ok(MtlState { current: Some(m2), ..st }),
                    Err(e) => Err(e),
                },
            }
        }
    }
}

/// The materials defined by the lines of `s` from byte `pos` on.
pub open spec fn mtl_at(s: Seq<u8>, pos: int, st: MtlState) -> Result<Seq<MaterialView>, MtlErrorView>
    decreases s.len() + 1 - pos,
{
    if pos < 0 || pos >= s.len() {
        Ok(with_current(st.done, st.current))
    } else {
        let e = line_end(s, pos);
        if e < pos || e > s.len() {
            Ok(with_current(st.done, st.current))
        } else {
            match mtl_step(st, s.subrange(pos, e)) {
                Err(er) => Err(er),
                Ok(st2) => mtl_at(s, e + 1, st2),
            }
        }
    }
}

/// The materials that a library defines, in order, or its first error.
pub open spec fn parse_mtl(s: Seq<u8>) -> Result<Seq<MaterialView>, MtlErrorView> {
    mtl_at(s, 0, MtlState { done: seq![], current: None })
}

/// The contents of a list of shared materials.
pub open spec fn materials_of(v: Seq<std::rc::Rc<Material>>) -> Seq<MaterialView> {
    v.map_values(|m: std::rc::Rc<Material>| (*m)@)
}

/// The contents of an optional material.
pub open spec fn opt_material_view(m: Option<Material>) -> Option<MaterialView> {
    match m {
        Some(x) => Some(x@),
        None => None,
    }
}

impl Mtl {
    /// Reads the library's materials from `input`, replacing those it held.
    /// On an error the library is left empty.
    pub fn reload(&mut self, input: &[u8]) -> (r: Result<(), MtlError>)
        ensures
            final(self)@.filename == old(self)@.filename,
            match r {
                Ok(()) => parse_mtl(input@) == Ok::<Seq<MaterialView>, MtlErrorView>(final(self)@.materials),
                Err(e) => parse_mtl(input@) == Err::<Seq<MaterialView>, MtlErrorView>(e@)
                    && final(self)@.materials.len() == 0,
            },
    {
        self.materials = Vec::new();
        assert(self@.materials =~= Seq::<MaterialView>::empty());
        let mut done: Vec<std::rc::Rc<Material>> = Vec::new();
        let mut current: Option<Material> = None;
        assert(materials_of(done@) =~= Seq::<MaterialView>::empty());
        let n = input.len();
        let mut pos: usize = 0;
        while pos < n
            invariant
                n == input@.len(),
                pos <= n,
                self@.materials.len() == 0,
                self@.filename == old(self)@.filename,
                mtl_at(input@, pos as int, MtlState { done: materials_of(done@), current: opt_material_view(current) })
                    == parse_mtl(input@),
            decreases n - pos,
        {
            let e = next_line_end(input, pos);
            proof {
                lemma_line_end(input@, pos as int);
            }
            let line = copy_range(input, pos, e);
            let ws = split_words(line.as_slice());
            let ghost st = MtlState { done: materials_of(done@), current: opt_material_view(current) };
            assert(seqs_of(ws@) == words(line@));
            if ws.len() > 0 {
                assert(seqs_of(ws@)[0] == ws@[0]@);
                let key = keyword(ws[0].as_slice());
                if key == MtlKeyword::NewMtl {
                    if ws.len() < 2 {
                        return Err(MtlError::MissingMaterialName);
                    }
                    assert(seqs_of(ws@)[1] == ws@[1]@);
                    let prev = current;
                    match prev {
                        Some(m) => {
                            let ghost before = materials_of(done@);
                            let ghost mv = m@;
                            done.push(std::rc::Rc::new(m));
                            assert(materials_of(done@) =~= before.push(mv));
                        },
                        None => {},
                    }
                    current = Some(Material::new(copy_bytes(&ws[1])));
                } else if key == MtlKeyword::Other {
                    let w0 = ws[0].as_slice();
                    if !(w0.len() > 0 && w0[0] == 0x23) {
                        return Err(MtlError::InvalidInstruction(copy_bytes(&ws[0])));
                    }
                } else {
                    let prev = current;
                    match prev {
                        None => {
                            current = None;
                        },
                        Some(m) => match set_attr(m, key, &ws) {
                            Ok(m2) => {
                                current = Some(m2);
                            },
                            Err(err) => {
                                return Err(err);
                            },
                        },
                    }
                }
            }
            let ghost st2 = MtlState { done: materials_of(done@), current: opt_material_view(current) };
            assert(mtl_step(st, line@) == Ok::<MtlState, MtlErrorView>(st2));
            assert(mtl_at(input@, pos as int, st) == mtl_at(input@, e + 1, st2));
            pos = if e < n { e + 1 } else { n };
            assert(mtl_at(input@, pos as int, st2) == mtl_at(input@, e + 1, st2));
        }
        let last = current;
        match last {
            Some(m) => {
                let ghost before = materials_of(done@);
                let ghost mv = m@;
                done.push(std::rc::Rc::new(m));
                assert(materials_of(done@) =~= before.push(mv));
            },
            None => {},
        }
        self.materials = done;
        Ok(())
    }
}

/// The libraries that failed to load, each with its file name and error.
#[derive(Debug)]
pub struct MtlLibsLoadError(pub Vec<(Vec<u8>, MtlError)>);

impl View for MtlLibsLoadError {
    type V = Seq<(Seq<u8>, MtlErrorView)>;

    open spec fn view(&self) -> Seq<(Seq<u8>, MtlErrorView)> {
        self.0@.map_values(|p: (Vec<u8>, MtlError)| (p.0@, p.1@))
    }
}

} // verus!
