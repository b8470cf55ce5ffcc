//! The mesh format: data model and line-oriented parser.
use vstd::prelude::*;
use crate::mtl::{
    opt_text, parse_mtl, Material, MaterialView, Mtl, MtlError, MtlErrorView, MtlLibsLoadError, MtlView,
};
use crate::text::{
    bytes_eq, copy_range, find_byte, find_from, is_number, is_number_text, join_from, join_words,
    lemma_find_byte, lemma_line_end, line_end, next_line_end, parse_int, parse_isize, rest_after_first,
    rest_of_line, seqs_of, split_words, words, equals_literal,
};

verus! {

/// Three numeric fields as written in the file.
#[derive(Debug)]
pub struct RawVec3 {
    pub x: Vec<u8>,
    pub y: Vec<u8>,
    pub z: Vec<u8>,
}

impl View for RawVec3 {
    type V = Seq<Seq<u8>>;

    open spec fn view(&self) -> Seq<Seq<u8>> {
        seq![self.x@, self.y@, self.z@]
    }
}

/// Two numeric fields as written in the file.
#[derive(Debug)]
pub struct RawVec2 {
    pub u: Vec<u8>,
    pub v: Vec<u8>,
}

impl View for RawVec2 {
    type V = Seq<Seq<u8>>;

    open spec fn view(&self) -> Seq<Seq<u8>> {
        seq![self.u@, self.v@]
    }
}

/// Zero-based indices of a polygon vertex: position, and optionally texture
/// coordinate and normal.
#[derive(Debug, Clone, Copy, PartialEq, Eq, Structural)]
pub struct IndexTuple(pub usize, pub Option<usize>, pub Option<usize>);

/// A polygon: one index tuple per vertex.
#[derive(Debug)]
pub struct SimplePolygon(pub Vec<IndexTuple>);

/// A material reference: a name until the libraries are loaded, then the
/// shared material.
#[derive(Debug)]
pub enum ObjMaterial {
    Ref(Vec<u8>),
    Mtl(std::rc::Rc<Material>),
}

/// The contents of an `ObjMaterial`.
pub enum MaterialRef {
    ByName(Seq<u8>),
    Resolved(MaterialView),
}

impl View for ObjMaterial {
    type V = MaterialRef;

    open spec fn view(&self) -> MaterialRef {
        match self {
            ObjMaterial::Ref(n) => MaterialRef::ByName(n@),
            ObjMaterial::Mtl(m) => MaterialRef::Resolved((**m)@),
        }
    }
}

/// A group of polygons with at most one material.
#[derive(Debug)]
pub struct Group {
    pub name: Vec<u8>,
    /// Tells apart groups that share a name: it grows by one each time a
    /// second material is applied to a group.
    pub index: usize,
    pub material: Option<ObjMaterial>,
    pub polys: Vec<SimplePolygon>,
}

/// The contents of a `Group`.
pub struct GroupView {
    pub name: Seq<u8>,
    pub index: int,
    pub material: Option<MaterialRef>,
    pub polys: Seq<Seq<IndexTuple>>,
}

/// The contents of an optional material reference.
pub open spec fn opt_material(m: Option<ObjMaterial>) -> Option<MaterialRef> {
    match m {
        Some(x) => Some(x@),
        None => None,
    }
}

impl View for Group {
    type V = GroupView;

    open spec fn view(&self) -> GroupView {
        GroupView {
            name: self.name@,
            index: self.index as int,
            material: opt_material(self.material),
            polys: self.polys@.map_values(|p: SimplePolygon| p.0@),
        }
    }
}

/// A named object and its groups.
#[derive(Debug)]
pub struct Object {
    pub name: Vec<u8>,
    pub groups: Vec<Group>,
}

/// The contents of an `Object`.
pub struct ObjectView {
    pub name: Seq<u8>,
    pub groups: Seq<GroupView>,
}

impl View for Object {
    type V = ObjectView;

    open spec fn view(&self) -> ObjectView {
        ObjectView { name: self.name@, groups: self.groups@.map_values(|g: Group| g@) }
    }
}

/// Everything read from a mesh file.
#[derive(Debug)]
pub struct MeshData {
    pub position: Vec<RawVec3>,
    pub texture: Vec<RawVec2>,
    pub normal: Vec<RawVec3>,
    /// The objects in file order, starting with the top-level default object.
    pub objects: Vec<Object>,
    /// The libraries named by `mtllib`, in file order.
    pub material_libs: Vec<Mtl>,
}

/// The contents of a `MeshData`.
pub struct MeshView {
    pub position: Seq<Seq<Seq<u8>>>,
    pub texture: Seq<Seq<Seq<u8>>>,
    pub normal: Seq<Seq<Seq<u8>>>,
    pub objects: Seq<ObjectView>,
    pub material_libs: Seq<MtlView>,
}

impl View for MeshData {
    type V = MeshView;

    open spec fn view(&self) -> MeshView {
        MeshView {
            position: self.position@.map_values(|p: RawVec3| p@),
            texture: self.texture@.map_values(|t: RawVec2| t@),
            normal: self.normal@.map_values(|n: RawVec3| n@),
            objects: self.objects@.map_values(|o: Object| o@),
            material_libs: self.material_libs@.map_values(|m: Mtl| m@),
        }
    }
}

/// Errors of the mesh parser.
#[derive(Debug)]
pub enum ObjError {
    /// The file could not be read.
    Io,
    /// The file's extension names no supported format.
    Unsupported,
    /// An index group of `f` is malformed or refers past its array.
    MalformedFaceGroup { line_number: usize, group: Vec<u8> },
    /// A `v`, `vt` or `vn` line lacks a field or has one that is no number.
    ArgumentListFailure { line_number: usize, list: Vec<Vec<u8>> },
    /// `mtllib` without a name.
    MissingMTLName { line_number: usize },
}

/// The contents of an `ObjError`.
pub enum ObjErrorView {
    Io,
    Unsupported,
    MalformedFaceGroup { line_number: int, group: Seq<u8> },
    ArgumentListFailure { line_number: int, list: Seq<Seq<u8>> },
    MissingMTLName { line_number: int },
}

impl View for ObjError {
    type V = ObjErrorView;

    open spec fn view(&self) -> ObjErrorView {
        match self {
            ObjError::Io => ObjErrorView::Io,
            ObjError::Unsupported => ObjErrorView::Unsupported,
            ObjError::MalformedFaceGroup { line_number, group } => ObjErrorView::MalformedFaceGroup {
                line_number: *line_number as int,
                group: group@,
            },
            ObjError::ArgumentListFailure { line_number, list } => ObjErrorView::ArgumentListFailure {
                line_number: *line_number as int,
                list: list@.map_values(|w: Vec<u8>| w@),
            },
            ObjError::MissingMTLName { line_number } => ObjErrorView::MissingMTLName {
                line_number: *line_number as int,
            },
        }
    }
}

/// The name given to objects and groups that the file does not name.
pub open spec fn default_name() -> Seq<u8> {
    seq![0x64u8, 0x65u8, 0x66u8, 0x61u8, 0x75u8, 0x6cu8, 0x74u8]
}

/// What the parser holds between lines: the mesh read so far, the object
/// being filled and the pending group.
pub struct ParseState {
    pub mesh: MeshView,
    pub object: ObjectView,
    pub group: Option<GroupView>,
}

/// The state before the first line: an empty mesh and the default object.
pub open spec fn initial_state() -> ParseState {
    ParseState {
        mesh: MeshView {
            position: seq![],
            texture: seq![],
            normal: seq![],
            objects: seq![],
            material_libs: seq![],
        },
        object: ObjectView { name: default_name(), groups: seq![] },
        group: None,
    }
}

/// A fresh group: index zero, no material, no polygons.
pub open spec fn new_group(name: Seq<u8>) -> GroupView {
    GroupView { name, index: 0, material: None, polys: seq![] }
}

/// The object with the pending group, if any, appended.
pub open spec fn flush(object: ObjectView, group: Option<GroupView>) -> ObjectView {
    match group {
        Some(g) => ObjectView { groups: object.groups.push(g), ..object },
        None => object,
    }
}

/// The mesh at the end of the input: the pending group goes into the
/// current object, which is appended even when empty.
pub open spec fn finish(st: ParseState) -> MeshView {
    MeshView { objects: st.mesh.objects.push(flush(st.object, st.group)), ..st.mesh }
}

/// The first `n` fields after the directive are present and are numbers.
pub open spec fn fields_ok(ws: Seq<Seq<u8>>, n: int) -> bool {
    ws.len() > n && forall|k: int| 1 <= k <= n ==> is_number_text(#[trigger] ws[k])
}

/// Those of the first `n` fields after the directive that are present.
pub open spec fn fields_list(ws: Seq<Seq<u8>>, n: int) -> Seq<Seq<u8>> {
    ws.subrange(1, if ws.len() < n + 1 { ws.len() as int } else { n + 1 })
}

/// The zero-based index that a file index denotes in an array of `len`
/// items: `i - 1` for a positive `i`, `len + i` for a negative one. Zero, and
/// any index that falls outside the array, denote nothing.
pub open spec fn resolve_index(i: int, len: int) -> Option<int> {
    if i < 0 {
        if len + i >= 0 { Some(len + i) } else { None }
    } else if 0 < i <= len {
        Some(i - 1)
    } else {
        None
    }
}

/// The `/`-separated fields of an index group: position, and texture and
/// normal when present.
pub open spec fn face_fields(tok: Seq<u8>) -> (Seq<u8>, Option<Seq<u8>>, Option<Seq<u8>>) {
    let a = find_byte(tok, 0x2fu8, 0);
    let p = tok.subrange(0, a);
    if a >= tok.len() {
        (p, None, None)
    } else {
        let b = find_byte(tok, 0x2fu8, a + 1);
        let t = tok.subrange(a + 1, b);
        if b >= tok.len() {
            (p, Some(t), None)
        } else {
            (p, Some(t), Some(tok.subrange(b + 1, find_byte(tok, 0x2fu8, b + 1))))
        }
    }
}

/// An optional texture or normal index: a field that is absent, empty or not
/// an integer gives none; an integer must resolve.
pub open spec fn optional_index(f: Option<Seq<u8>>, len: int) -> Result<Option<usize>, ()> {
    match f {
        None => Ok(None),
        Some(x) => match parse_int(x) {
            None => Ok(None),
            Some(v) => match resolve_index(v, len) {
                Some(r) => Ok(Some(r as usize)),
                None => Err(()),
            },
        },
    }
}

/// The index tuple that a group denotes, given the array lengths.
pub open spec fn index_tuple(tok: Seq<u8>, np: int, nt: int, nn: int) -> Option<IndexTuple> {
    let (p, t, n) = face_fields(tok);
    match parse_int(p) {
        None => None,
        Some(pv) => match resolve_index(pv, np) {
            None => None,
            Some(pi) => match (optional_index(t, nt), optional_index(n, nn)) {
                (Ok(ti), Ok(ni)) => Some(IndexTuple(pi as usize, ti, ni)),
                _ => None,
            },
        },
    }
}

/// The polygon made of the groups `ws[k..]`, or the first malformed group.
pub open spec fn face_from(ws: Seq<Seq<u8>>, k: int, np: int, nt: int, nn: int) -> Result<
    Seq<IndexTuple>,
    Seq<u8>,
>
    decreases ws.len() - k,
{
    if k < 0 || k >= ws.len() {
        Ok(seq![])
    } else {
        match index_tuple(ws[k], np, nt, nn) {
            None => Err(ws[k]),
            Some(it) => match face_from(ws, k + 1, np, nt, nn) {
                Ok(r) => Ok(seq![it] + r),
                Err(e) => Err(e),
            },
        }
    }
}

/// The directive words of the mesh format.
pub open spec fn word_v() -> Seq<u8> {
    seq![0x76u8]
}

pub open spec fn word_vt() -> Seq<u8> {
    seq![0x76u8, 0x74u8]
}

pub open spec fn word_vn() -> Seq<u8> {
    seq![0x76u8, 0x6eu8]
}

pub open spec fn word_f() -> Seq<u8> {
    seq![0x66u8]
}

pub open spec fn word_o() -> Seq<u8> {
    seq![0x6fu8]
}

pub open spec fn word_g() -> Seq<u8> {
    seq![0x67u8]
}

pub open spec fn word_mtllib() -> Seq<u8> {
    seq![0x6du8, 0x74u8, 0x6cu8, 0x6cu8, 0x69u8, 0x62u8]
}

pub open spec fn word_usemtl() -> Seq<u8> {
    seq![0x75u8, 0x73u8, 0x65u8, 0x6du8, 0x74u8, 0x6cu8]
}

/// `usemtl`: binds the material to the pending group (a default group if
/// there is none); a group that already has a material is first closed, and
/// a group of the same name with the next index takes its place.
pub open spec fn use_material(st: ParseState, ws: Seq<Seq<u8>>) -> ParseState {
    let g0 = match st.group {
        Some(g) => g,
        None => new_group(default_name()),
    };
    let object = if g0.material is Some {
        ObjectView { groups: st.object.groups.push(g0), ..st.object }
    } else {
        st.object
    };
    let g1 = if g0.material is Some {
        GroupView { index: g0.index + 1, polys: seq![], ..g0 }
    } else {
        g0
    };
    let mat = if ws.len() >= 2 {
        Some(MaterialRef::ByName(ws[1]))
    } else {
        None
    };
    ParseState { object, group: Some(GroupView { material: mat, ..g1 }), ..st }
}

/// `f`: appends the polygon to the pending group (a default group if there
/// is none).
pub open spec fn add_face(st: ParseState, poly: Seq<IndexTuple>) -> ParseState {
    ParseState { group: Some(face_group(st.group, poly)), ..st }
}

/// The pending group once the polygon is appended to it.
pub open spec fn face_group(group: Option<GroupView>, poly: Seq<IndexTuple>) -> GroupView {
    match group {
        None => GroupView { polys: seq![poly], ..new_group(default_name()) },
        Some(g) => GroupView { polys: g.polys.push(poly), ..g },
    }
}

/// The effect of one line, numbered `idx` from zero.
pub open spec fn step(st: ParseState, line: Seq<u8>, idx: int) -> Result<ParseState, ObjErrorView> {
    let ws = words(line);
    if ws.len() == 0 {
        Ok(st)
    } else if ws[0] == word_v() || ws[0] == word_vn() {
        if fields_ok(ws, 3) {
            if ws[0] == word_v() {
                Ok(ParseState { mesh: MeshView { position: st.mesh.position.push(ws.subrange(1, 4)), ..st.mesh }, ..st })
            } else {
                Ok(ParseState { mesh: MeshView { normal: st.mesh.normal.push(ws.subrange(1, 4)), ..st.mesh }, ..st })
            }
        } else {
            Err(ObjErrorView::ArgumentListFailure { line_number: idx, list: fields_list(ws, 3) })
        }
    } else if ws[0] == word_vt() {
        if fields_ok(ws, 2) {
            Ok(ParseState { mesh: MeshView { texture: st.mesh.texture.push(ws.subrange(1, 3)), ..st.mesh }, ..st })
        } else {
            Err(ObjErrorView::ArgumentListFailure { line_number: idx, list: fields_list(ws, 2) })
        }
    } else if ws[0] == word_f() {
        match face_from(ws, 1, st.mesh.position.len() as int, st.mesh.texture.len() as int, st.mesh.normal.len() as int) {
            Err(g) => Err(ObjErrorView::MalformedFaceGroup { line_number: idx, group: g }),
            Ok(poly) => Ok(add_face(st, poly)),
        }
    } else if ws[0] == word_o() {
        let name = rest_after_first(line);
        Ok(
            ParseState {
                mesh: MeshView { objects: st.mesh.objects.push(flush(st.object, st.group)), ..st.mesh },
                object: ObjectView { name: if name.len() > 0 { name } else { default_name() }, groups: seq![] },
                group: None,
            },
        )
    } else if ws[0] == word_g() {
        let name = rest_after_first(line);
        Ok(
            ParseState {
                object: flush(st.object, st.group),
                group: if name.len() > 0 { Some(new_group(name)) } else { None },
                ..st
            },
        )
    } else if ws[0] == word_mtllib() {
        if ws.len() < 2 {
            Err(ObjErrorView::MissingMTLName { line_number: idx })
        } else {
            let lib = MtlView { filename: join_words(ws.subrange(1, ws.len() as int)), materials: seq![] };
            Ok(ParseState { mesh: MeshView { material_libs: st.mesh.material_libs.push(lib), ..st.mesh }, ..st })
        }
    } else if ws[0] == word_usemtl() {
        Ok(use_material(st, ws))
    } else {
        Ok(st)
    }
}

/// The result of parsing the lines of `s` from byte `pos` (line `idx`) on,
/// from state `st`. Lines end at a line feed; the last line may lack one.
pub open spec fn parse_at(s: Seq<u8>, pos: int, idx: int, st: ParseState) -> Result<MeshView, ObjErrorView>
    decreases s.len() + 1 - pos,
{
    if pos < 0 || pos >= s.len() {
        Ok(finish(st))
    } else {
        let e = line_end(s, pos);
        if e < pos || e > s.len() {
            Ok(finish(st))
        } else {
            match step(st, s.subrange(pos, e), idx) {
                Err(er) => Err(er),
                Ok(st2) => parse_at(s, e + 1, idx + 1, st2),
            }
        }
    }
}

/// The mesh that a file holds, or the first error in it.
pub open spec fn parse_obj(s: Seq<u8>) -> Result<MeshView, ObjErrorView> {
    parse_at(s, 0, 0, initial_state())
}

impl ObjMaterial {
    /// The name of the material referred to.
    pub fn name(&self) -> (r: &Vec<u8>)
        ensures
            r@ == ref_name(self@),
    {
        match self {
            ObjMaterial::Ref(n) => n,
            ObjMaterial::Mtl(m) => &m.name,
        }
    }
}

impl Object {
    /// An object with the given name and no groups.
    pub fn new(name: Vec<u8>) -> (r: Object)
        ensures
            r@.name == name@,
            r@.groups.len() == 0,
    {
        Object { name, groups: Vec::new() }
    }
}

impl Group {
    /// A group with the given name, index zero, no material and no polygons.
    pub fn new(name: Vec<u8>) -> (r: Group)
        ensures
            r@ == new_group(name@),
    {
        let r = Group { name, index: 0, material: None, polys: Vec::new() };
        assert(r@.polys =~= Seq::<Seq<IndexTuple>>::empty());
        r
    }
}

impl MeshData {
    /// An empty mesh.
    pub fn new() -> (r: MeshData)
        ensures
            r@ == initial_state().mesh,
    {
        let r = MeshData {
            position: Vec::new(),
            texture: Vec::new(),
            normal: Vec::new(),
            objects: Vec::new(),
            material_libs: Vec::new(),
        };
        assert(r@.position =~= Seq::<Seq<Seq<u8>>>::empty());
        assert(r@.texture =~= Seq::<Seq<Seq<u8>>>::empty());
        assert(r@.normal =~= Seq::<Seq<Seq<u8>>>::empty());
        assert(r@.objects =~= Seq::<ObjectView>::empty());
        assert(r@.material_libs =~= Seq::<MtlView>::empty());
        r
    }
}

/// The file extension of the mesh format.
pub open spec fn obj_extension() -> Seq<u8> {
    seq![0x6fu8, 0x62u8, 0x6au8]
}

/// Whether a file extension names the mesh format (`obj`).
pub fn is_supported_extension(ext: &[u8]) -> (r: bool)
    ensures
        r == (ext@ == obj_extension()),
{
    let lit: [u8; 3] = [0x6f, 0x62, 0x6a];
    assert(lit@ =~= obj_extension());
    equals_literal(ext, &lit, Ghost(obj_extension()))
}

/// An index of `-1` given after `len` items denotes the last of them.
pub proof fn lemma_minus_one_is_last(len: int)
    requires
        len > 0,
    ensures
        resolve_index(-1, len) == Some(len - 1),
{
}

/// The zero-based index that file index `idx` denotes in an array of `len`
/// items, if any (see `resolve_index`).
pub fn normalize(idx: isize, len: usize) -> (r: Option<usize>)
    ensures
        r.is_some() == resolve_index(idx as int, len as int).is_some(),
        r.is_some() ==> r.unwrap() as int == resolve_index(idx as int, len as int).unwrap(),
{
    if idx < 0 {
        let m = -(idx as i128);
        if m <= len as i128 {
            Some((len as i128 - m) as usize)
        } else {
            None
        }
    } else if idx > 0 && (idx as usize) <= len {
        Some(idx as usize - 1)
    } else {
        None
    }
}

/// A copy of a byte vector.
pub fn copy_bytes(v: &Vec<u8>) -> (r: Vec<u8>)
    ensures
        r@ == v@,
{
    copy_range(v.as_slice(), 0, v.len())
}

fn optional_index_of(f: &Option<Vec<u8>>, len: usize) -> (r: Result<Option<usize>, ()>)
    ensures
        r == optional_index(opt_text(*f), len as int),
{
    match f {
        None => Ok(None),
        Some(x) => match parse_isize(x.as_slice()) {
            None => Ok(None),
            Some(v) => match normalize(v, len) {
                Some(i) => Ok(Some(i)),
                None => Err(()),
            },
        },
    }
}

/// The index tuple that the index group `tok` denotes against arrays of
/// `np` positions, `nt` texture coordinates and `nn` normals.
pub fn parse_group(tok: &Vec<u8>, np: usize, nt: usize, nn: usize) -> (r: Option<IndexTuple>)
    ensures
        r == index_tuple(tok@, np as int, nt as int, nn as int),
{
    let t = tok.as_slice();
    let n = t.len();
    let a = find_from(t, 0x2f, 0);
    proof {
        lemma_find_byte(t@, 0x2fu8, 0);
    }
    let p = copy_range(t, 0, a);
    let (tf, nf): (Option<Vec<u8>>, Option<Vec<u8>>) = if a >= n {
        (None, None)
    } else {
        let b = find_from(t, 0x2f, a + 1);
        proof {
            lemma_find_byte(t@, 0x2fu8, a + 1);
        }
        let tv = copy_range(t, a + 1, b);
        if b >= n {
            (Some(tv), None)
        } else {
            let c = find_from(t, 0x2f, b + 1);
            proof {
                lemma_find_byte(t@, 0x2fu8, b + 1);
            }
            (Some(tv), Some(copy_range(t, b + 1, c)))
        }
    };
    assert(face_fields(tok@) == (p@, opt_text(tf), opt_text(nf)));
    match parse_isize(p.as_slice()) {
        None => None,
        Some(v) => match normalize(v, np) {
            None => None,
            Some(pi) => {
                let ti = optional_index_of(&tf, nt);
                let ni = optional_index_of(&nf, nn);
                match (ti, ni) {
                    (Ok(x), Ok(y)) => Some(IndexTuple(pi, x, y)),
                    _ => None,
                }
            },
        },
    }
}

/// `r` with `done` put in front of a successful result.
pub open spec fn prefixed(done: Seq<IndexTuple>, r: Result<Seq<IndexTuple>, Seq<u8>>) -> Result<
    Seq<IndexTuple>,
    Seq<u8>,
> {
    match r {
        Ok(p) => Ok(done + p),
        Err(e) => Err(e),
    }
}

/// The polygon made of the index groups `ws[1..]`, or the first malformed
/// group.
pub fn parse_face(ws: &Vec<Vec<u8>>, np: usize, nt: usize, nn: usize) -> (r: Result<Vec<IndexTuple>, Vec<u8>>)
    ensures
        match r {
            Ok(p) => face_from(seqs_of(ws@), 1, np as int, nt as int, nn as int) == Ok::<Seq<IndexTuple>, Seq<u8>>(p@),
            Err(g) => face_from(seqs_of(ws@), 1, np as int, nt as int, nn as int) == Err::<Seq<IndexTuple>, Seq<u8>>(g@),
        },
{
    let ghost sw = seqs_of(ws@);
    let mut out: Vec<IndexTuple> = Vec::new();
    let mut k: usize = 1;
    assert(out@ + seq![] =~= seq![]);
    while k < ws.len()
        invariant
            sw == seqs_of(ws@),
            1 <= k,
            face_from(sw, 1, np as int, nt as int, nn as int) == prefixed(
                out@,
                face_from(sw, k as int, np as int, nt as int, nn as int),
            ),
        decreases ws@.len() - k,
    {
        match parse_group(&ws[k], np, nt, nn) {
            None => {
                return Err(copy_bytes(&ws[k]));
            },
            Some(it) => {
                let ghost before = out@;
                out.push(it);
                proof {
                    let rest = face_from(sw, k as int + 1, np as int, nt as int, nn as int);
                    match rest {
                        Ok(p) => {
                            assert(before + (seq![it] + p) =~= out@ + p);
                        },
                        Err(e) => {},
                    }
                }
                k = k + 1;
            },
        }
    }
    assert(out@ + seq![] =~= out@);
    Ok(out)
}

/// Whether the first `n` fields after the directive are present numbers.
fn check_fields(ws: &Vec<Vec<u8>>, n: usize) -> (r: bool)
    requires
        n < 8,
    ensures
        r == fields_ok(seqs_of(ws@), n as int),
{
    if ws.len() <= n {
        return false;
    }
    let mut k: usize = 1;
    while k <= n
        invariant
            n < 8,
            1 <= k <= n + 1,
            ws@.len() > n,
            forall|j: int| 1 <= j < k ==> is_number_text(#[trigger] seqs_of(ws@)[j]),
        decreases n + 1 - k,
    {
        assert(seqs_of(ws@)[k as int] == ws@[k as int]@);
        if !is_number(ws[k].as_slice()) {
            return false;
        }
        k = k + 1;
    }
    true
}

/// Copies of those of the first `n` fields after the directive that are
/// present.
fn field_list(ws: &Vec<Vec<u8>>, n: usize) -> (r: Vec<Vec<u8>>)
    requires
        n < 8,
        ws@.len() >= 1,
    ensures
        seqs_of(r@) == fields_list(seqs_of(ws@), n as int),
{
    let end = if ws.len() < n + 1 { ws.len() } else { n + 1 };
    let mut r: Vec<Vec<u8>> = Vec::new();
    let mut k: usize = 1;
    while k < end
        invariant
            n < 8,
            1 <= k <= end,
            end <= ws@.len(),
            end == (if ws@.len() < n + 1 { ws@.len() as int } else { n + 1 }),
            r@.len() == k - 1,
            forall|j: int| 0 <= j < r@.len() ==> (#[trigger] r@[j])@ == ws@[j + 1]@,
        decreases end - k,
    {
        let w = copy_bytes(&ws[k]);
        r.push(w);
        k = k + 1;
    }
    assert(seqs_of(r@) =~= fields_list(seqs_of(ws@), n as int));
    r
}

/// The name `default`.
pub fn default_name_bytes() -> (r: Vec<u8>)
    ensures
        r@ == default_name(),
{
    let mut r: Vec<u8> = Vec::new();
    r.push(0x64);
    r.push(0x65);
    r.push(0x66);
    r.push(0x61);
    r.push(0x75);
    r.push(0x6c);
    r.push(0x74);
    assert(r@ =~= default_name());
    r
}

/// The contents of an optional group.
pub open spec fn opt_group(g: Option<Group>) -> Option<GroupView> {
    match g {
        Some(x) => Some(x@),
        None => None,
    }
}

/// The parser state that the three running values stand for.
pub open spec fn state_of(dat: MeshData, object: Object, group: Option<Group>) -> ParseState {
    ParseState { mesh: dat@, object: object@, group: opt_group(group) }
}

fn raw3(ws: &Vec<Vec<u8>>) -> (r: RawVec3)
    requires
        ws@.len() >= 4,
    ensures
        r@ == seqs_of(ws@).subrange(1, 4),
{
    let r = RawVec3 { x: copy_bytes(&ws[1]), y: copy_bytes(&ws[2]), z: copy_bytes(&ws[3]) };
    assert(r@ =~= seqs_of(ws@).subrange(1, 4));
    r
}

fn raw2(ws: &Vec<Vec<u8>>) -> (r: RawVec2)
    requires
        ws@.len() >= 3,
    ensures
        r@ == seqs_of(ws@).subrange(1, 3),
{
    let r = RawVec2 { u: copy_bytes(&ws[1]), v: copy_bytes(&ws[2]) };
    assert(r@ =~= seqs_of(ws@).subrange(1, 3));
    r
}

/// Appends the pending group, if any, to the object.
fn flush_group(object: &mut Object, group: Option<Group>)
    ensures
        final(object)@ == flush(old(object)@, opt_group(group)),
{
    match group {
        Some(g) => {
            let ghost before = object@;
            object.groups.push(g);
            assert(object@.groups =~= before.groups.push(g@));
        },
        None => {},
    }
}

/// The pending group with the polygon appended.
fn group_with_face(group: Option<Group>, poly: Vec<IndexTuple>) -> (r: Group)
    ensures
        r@ == face_group(opt_group(group), poly@),
{
    let mut g = match group {
        Some(g) => g,
        None => Group { name: default_name_bytes(), index: 0, material: None, polys: Vec::new() },
    };
    let ghost before = g@;
    proof {
        if group is None {
            assert(before.polys =~= Seq::<Seq<IndexTuple>>::empty());
            assert(before.polys.push(poly@) =~= seq![poly@]);
        }
    }
    g.polys.push(SimplePolygon(poly));
    assert(g@.polys =~= before.polys.push(poly@));
    g
}

/// `usemtl`: see `use_material`.
fn group_with_material(object: &mut Object, group: Option<Group>, ws: &Vec<Vec<u8>>, Ghost(mesh): Ghost<MeshView>) -> (r: Group)
    requires
        match group {
            Some(g) => g.index < usize::MAX,
            None => true,
        },
    ensures
        use_material(ParseState { mesh, object: old(object)@, group: opt_group(group) }, seqs_of(ws@))
            == (ParseState { mesh, object: final(object)@, group: Some(r@) }),
        r.index as int <= (match group {
            Some(g) => g.index + 1,
            None => 0,
        }),
{
    let mut g = match group {
        Some(g) => g,
        None => Group { name: default_name_bytes(), index: 0, material: None, polys: Vec::new() },
    };
    proof {
        if group is None {
            assert(g@.polys =~= Seq::<Seq<IndexTuple>>::empty());
            assert(g@ == new_group(default_name()));
        }
    }
    if g.material.is_some() {
        let name = copy_bytes(&g.name);
        let index = g.index;
        let ghost before = object@;
        let ghost g0 = g@;
        object.groups.push(g);
        assert(object@.groups =~= before.groups.push(g0));
        g = Group { name, index: index + 1, material: None, polys: Vec::new() };
        assert(g@.polys =~= Seq::<Seq<IndexTuple>>::empty());
    }
    g.material = if ws.len() >= 2 {
        Some(ObjMaterial::Ref(copy_bytes(&ws[1])))
    } else {
        None
    };
    g
}

/// Parses a mesh file: positions, texture coordinates and normals, faces
/// resolved against the arrays as they stand when each face is read,
/// objects, groups, material libraries and material references. Fails on
/// the first malformed line.
pub fn load_buf(input: &[u8]) -> (r: Result<MeshData, ObjError>)
    ensures
        match r {
            Ok(m) => parse_obj(input@) == Ok::<MeshView, ObjErrorView>(m@),
            Err(e) => parse_obj(input@) == Err::<MeshView, ObjErrorView>(e@),
        },
{
    let mut dat = MeshData::new();
    let mut object = Object::new(default_name_bytes());
    let mut group: Option<Group> = None;
    assert(object@.groups =~= Seq::<GroupView>::empty());
    assert(state_of(dat, object, group) == initial_state());
    let l_v: [u8; 1] = [0x76];
    let l_vt: [u8; 2] = [0x76, 0x74];
    let l_vn: [u8; 2] = [0x76, 0x6e];
    let l_f: [u8; 1] = [0x66];
    let l_o: [u8; 1] = [0x6f];
    let l_g: [u8; 1] = [0x67];
    let l_mtllib: [u8; 6] = [0x6d, 0x74, 0x6c, 0x6c, 0x69, 0x62];
    let l_usemtl: [u8; 6] = [0x75, 0x73, 0x65, 0x6d, 0x74, 0x6c];
    assert(l_v@ =~= word_v());
    assert(l_vt@ =~= word_vt());
    assert(l_vn@ =~= word_vn());
    assert(l_f@ =~= word_f());
    assert(l_o@ =~= word_o());
    assert(l_g@ =~= word_g());
    assert(l_mtllib@ =~= word_mtllib());
    assert(l_usemtl@ =~= word_usemtl());
    let n = input.len();
    let mut pos: usize = 0;
    let mut idx: usize = 0;
    while pos < n
        invariant
            n == input@.len(),
            pos <= n,
            idx <= pos,
            parse_at(input@, pos as int, idx as int, state_of(dat, object, group)) == parse_obj(input@),
            match group {
                Some(g) => g.index <= idx,
                None => true,
            },
            l_v@ == word_v(),
            l_vt@ == word_vt(),
            l_vn@ == word_vn(),
            l_f@ == word_f(),
            l_o@ == word_o(),
            l_g@ == word_g(),
            l_mtllib@ == word_mtllib(),
            l_usemtl@ == word_usemtl(),
        decreases n - pos,
    {
        let e = next_line_end(input, pos);
        proof {
            lemma_line_end(input@, pos as int);
        }
        let line = copy_range(input, pos, e);
        let ws = split_words(line.as_slice());
        let ghost st = state_of(dat, object, group);
        let ghost sw = seqs_of(ws@);
        assert(sw == words(line@));
        if ws.len() > 0 {
            assert(sw[0] == ws@[0]@);
            let w0 = ws[0].as_slice();
            if equals_literal(w0, &l_v, Ghost(word_v())) || equals_literal(w0, &l_vn, Ghost(word_vn())) {
                if !check_fields(&ws, 3) {
                    return Err(ObjError::ArgumentListFailure { line_number: idx, list: field_list(&ws, 3) });
                }
                let v = raw3(&ws);
                let ghost before = dat@;
                if equals_literal(w0, &l_v, Ghost(word_v())) {
                    dat.position.push(v);
                    assert(dat@.position =~= before.position.push(v@));
                } else {
                    dat.normal.push(v);
                    assert(dat@.normal =~= before.normal.push(v@));
                }
            } else if equals_literal(w0, &l_vt, Ghost(word_vt())) {
                if !check_fields(&ws, 2) {
                    return Err(ObjError::ArgumentListFailure { line_number: idx, list: field_list(&ws, 2) });
                }
                let t = raw2(&ws);
                let ghost before = dat@;
                dat.texture.push(t);
                assert(dat@.texture =~= before.texture.push(t@));
            } else if equals_literal(w0, &l_f, Ghost(word_f())) {
                match parse_face(&ws, dat.position.len(), dat.texture.len(), dat.normal.len()) {
                    Err(g) => {
                        return Err(ObjError::MalformedFaceGroup { line_number: idx, group: g });
                    },
                    Ok(poly) => {
                        let pending = group;
                        group = Some(group_with_face(pending, poly));
                    },
                }
            } else if equals_literal(w0, &l_o, Ghost(word_o())) {
                let name = rest_of_line(line.as_slice());
                let pending = group;
                group = None;
                flush_group(&mut object, pending);
                let name = if name.len() > 0 { name } else { default_name_bytes() };
                let done = object;
                object = Object::new(name);
                assert(object@.groups =~= Seq::<GroupView>::empty());
                let ghost before = dat@;
                dat.objects.push(done);
                assert(dat@.objects =~= before.objects.push(done@));
            } else if equals_literal(w0, &l_g, Ghost(word_g())) {
                let name = rest_of_line(line.as_slice());
                let pending = group;
                flush_group(&mut object, pending);
                group = if name.len() > 0 {
                    Some(Group::new(name))
                } else {
                    None
                };
                proof {
                    if name@.len() > 0 {
                        assert(opt_group(group).unwrap().polys =~= Seq::<Seq<IndexTuple>>::empty());
                    }
                }
            } else if equals_literal(w0, &l_mtllib, Ghost(word_mtllib())) {
                if ws.len() < 2 {
                    return Err(ObjError::MissingMTLName { line_number: idx });
                }
                let lib = Mtl::new(join_from(&ws, 1, ws.len()));
                let ghost before = dat@;
                dat.material_libs.push(lib);
                assert(lib@.materials =~= Seq::<MaterialView>::empty());
                assert(dat@.material_libs =~= before.material_libs.push(lib@));
            } else if equals_literal(w0, &l_usemtl, Ghost(word_usemtl())) {
                let pending = group;
                let g = group_with_material(&mut object, pending, &ws, Ghost(dat@));
                group = Some(g);
            }
        }
        assert(step(st, line@, idx as int) == Ok::<ParseState, ObjErrorView>(state_of(dat, object, group)));
        let ghost st2 = state_of(dat, object, group);
        assert(parse_at(input@, pos as int, idx as int, st) == parse_at(input@, e + 1, idx + 1, st2));
        pos = if e < n { e + 1 } else { n };
        idx = idx + 1;
        assert(parse_at(input@, pos as int, idx as int, st2) == parse_at(input@, e + 1, idx as int, st2));
    }
    let pending = group;
    flush_group(&mut object, pending);
    let ghost before = dat@;
    dat.objects.push(object);
    assert(dat@.objects =~= before.objects.push(object@));
    Ok(dat)
}

/// A library after loading from `src`, its contents or `None` when it could
/// not be read: a library that fails to load, unreadable or malformed, is
/// left with no materials.
pub open spec fn lib_after(lib: MtlView, src: Option<Seq<u8>>) -> MtlView {
    match src {
        None => MtlView { materials: seq![], ..lib },
        Some(text) => match parse_mtl(text) {
            Ok(ms) => MtlView { materials: ms, ..lib },
            Err(_) => MtlView { materials: seq![], ..lib },
        },
    }
}

/// Every library after loading from its source.
pub open spec fn loaded_libs(libs: Seq<MtlView>, srcs: Seq<Option<Seq<u8>>>) -> Seq<MtlView> {
    Seq::new(libs.len(), |k: int| lib_after(libs[k], srcs[k]))
}

/// After a load, a reference to `name` is bound to the first definition of
/// `name` in the earliest library that loaded and defines it; a library that
/// failed to load contributes nothing.
pub proof fn lemma_load_binds_first_library(
    libs: Seq<MtlView>,
    srcs: Seq<Option<Seq<u8>>>,
    name: Seq<u8>,
    a: int,
    text: Seq<u8>,
    ms: Seq<MaterialView>,
)
    requires
        libs.len() == srcs.len(),
        0 <= a < libs.len(),
        srcs[a] == Some(text),
        parse_mtl(text) == Ok::<Seq<MaterialView>, MtlErrorView>(ms),
        first_named(ms, name, 0) is Some,
        forall|k: int|
            0 <= k < a ==> lib_error(#[trigger] srcs[k]) is Some || first_named(
                lib_after(libs[k], srcs[k]).materials,
                name,
                0,
            ) is None,
    ensures
        resolved(Some(MaterialRef::ByName(name)), loaded_libs(libs, srcs)) == Some(
            MaterialRef::Resolved(first_named(ms, name, 0).unwrap()),
        ),
{
    let after = loaded_libs(libs, srcs);
    assert forall|k: int| 0 <= k < a implies (#[trigger] first_named(after[k].materials, name, 0)) is None by {
        assert(after[k] == lib_after(libs[k], srcs[k]));
        if lib_error(srcs[k]) is Some {
            assert(after[k].materials =~= Seq::<MaterialView>::empty());
        }
    }
    assert(after[a].materials == ms);
    lemma_first_library_wins(after, name, a);
}

/// Why a library failed to load, if it did.
pub open spec fn lib_error(src: Option<Seq<u8>>) -> Option<MtlErrorView> {
    match src {
        None => Some(MtlErrorView::Io),
        Some(text) => match parse_mtl(text) {
            Ok(_) => None,
            Err(e) => Some(e),
        },
    }
}

/// The failures among the first `k` libraries, in order, each with the
/// library's file name.
pub open spec fn load_errors(libs: Seq<MtlView>, srcs: Seq<Option<Seq<u8>>>, k: int) -> Seq<
    (Seq<u8>, MtlErrorView),
>
    decreases k,
{
    if k <= 0 {
        seq![]
    } else {
        let prev = load_errors(libs, srcs, k - 1);
        match lib_error(srcs[k - 1]) {
            Some(e) => prev.push((libs[k - 1].filename, e)),
            None => prev,
        }
    }
}

/// The first material named `name` in `ms[j..]`.
pub open spec fn first_named(ms: Seq<MaterialView>, name: Seq<u8>, j: int) -> Option<MaterialView>
    decreases ms.len() - j,
{
    if j < 0 || j >= ms.len() {
        None
    } else if ms[j].name == name {
        Some(ms[j])
    } else {
        first_named(ms, name, j + 1)
    }
}

/// The material named `name` in the libraries `libs[k..]`: the first
/// library that defines the name wins, and within it the first definition.
pub open spec fn lookup(libs: Seq<MtlView>, name: Seq<u8>, k: int) -> Option<MaterialView>
    decreases libs.len() - k,
{
    if k < 0 || k >= libs.len() {
        None
    } else {
        match first_named(libs[k].materials, name, 0) {
            Some(m) => Some(m),
            None => lookup(libs, name, k + 1),
        }
    }
}

/// The name that a material reference carries.
pub open spec fn ref_name(r: MaterialRef) -> Seq<u8> {
    match r {
        MaterialRef::ByName(n) => n,
        MaterialRef::Resolved(m) => m.name,
    }
}

/// A group's material reference once bound against the libraries: a name
/// that some library defines becomes that material, any other stays.
pub open spec fn resolved(r: Option<MaterialRef>, libs: Seq<MtlView>) -> Option<MaterialRef> {
    match r {
        None => None,
        Some(x) => match lookup(libs, ref_name(x), 0) {
            Some(m) => Some(MaterialRef::Resolved(m)),
            None => Some(x),
        },
    }
}

/// When several libraries define a material name, a lookup of that name
/// finds the definition in the earliest of them.
pub proof fn lemma_first_library_wins(libs: Seq<MtlView>, name: Seq<u8>, a: int)
    requires
        0 <= a < libs.len(),
        first_named(libs[a].materials, name, 0) is Some,
        forall|k: int| 0 <= k < a ==> (#[trigger] first_named(libs[k].materials, name, 0)) is None,
    ensures
        lookup(libs, name, 0) == first_named(libs[a].materials, name, 0),
{
    lemma_lookup_skips(libs, name, a, 0);
}

proof fn lemma_lookup_skips(libs: Seq<MtlView>, name: Seq<u8>, a: int, k: int)
    requires
        0 <= k <= a < libs.len(),
        first_named(libs[a].materials, name, 0) is Some,
        forall|j: int| 0 <= j < a ==> (#[trigger] first_named(libs[j].materials, name, 0)) is None,
    ensures
        lookup(libs, name, k) == first_named(libs[a].materials, name, 0),
    decreases a - k,
{
    if k < a {
        assert(first_named(libs[k].materials, name, 0) is None);
        lemma_lookup_skips(libs, name, a, k + 1);
    }
}

/// A second material applied to a group that already has one closes that
/// group into the object and opens a group of the same name whose index is
/// one higher.
pub proof fn lemma_second_material_splits_group(st: ParseState, ws: Seq<Seq<u8>>)
    requires
        st.group is Some,
        st.group.unwrap().material is Some,
    ensures
        ({
            let g = st.group.unwrap();
            let st2 = use_material(st, ws);
            &&& st2.object.groups == st.object.groups.push(g)
            &&& st2.group.unwrap().name == g.name
            &&& st2.group.unwrap().index == g.index + 1
            &&& st2.group.unwrap().polys.len() == 0
        }),
{
}

/// A group with its material reference bound against the libraries.
/// The state after the faces `polys`, in order.
pub open spec fn add_faces(st: ParseState, polys: Seq<Seq<IndexTuple>>) -> ParseState
    decreases polys.len(),
{
    if polys.len() == 0 {
        st
    } else {
        add_face(add_faces(st, polys.drop_last()), polys.last())
    }
}

/// The words of a `usemtl` line naming `n`.
pub open spec fn usemtl_words(n: Seq<u8>) -> Seq<Seq<u8>> {
    seq![word_usemtl(), n]
}

/// The state after, for each `k`, a `usemtl names[k]` line followed by the
/// faces `faces[k]`, with no `g` or `o` line between them.
pub open spec fn run_materials(st: ParseState, names: Seq<Seq<u8>>, faces: Seq<Seq<Seq<IndexTuple>>>) -> ParseState
    decreases names.len(),
{
    if names.len() == 0 {
        st
    } else {
        let k = names.len() - 1;
        add_faces(use_material(run_materials(st, names.drop_last(), faces), usemtl_words(names[k])), faces[k])
    }
}

/// The group that the `i`-th `usemtl` of such a run leaves, for a run that
/// starts in group `g`: the first binds `g` itself, each later one opens a
/// group of the same name with the next index.
pub open spec fn run_group(g: GroupView, i: int, n: Seq<u8>, polys: Seq<Seq<IndexTuple>>) -> GroupView {
    GroupView {
        name: g.name,
        index: g.index + i,
        material: Some(MaterialRef::ByName(n)),
        polys: if i == 0 { g.polys + polys } else { polys },
    }
}

/// A line whose words are `usemtl n` is the step that `run_materials` takes.
pub proof fn lemma_step_usemtl(st: ParseState, line: Seq<u8>, idx: int, n: Seq<u8>)
    requires
        words(line) == usemtl_words(n),
    ensures
        step(st, line, idx) == Ok::<ParseState, ObjErrorView>(use_material(st, usemtl_words(n))),
{
    assert(word_usemtl() != word_v() && word_usemtl() != word_vn() && word_usemtl() != word_vt());
    assert(word_usemtl() != word_f() && word_usemtl() != word_o() && word_usemtl() != word_g());
    assert(word_usemtl()[1] != word_mtllib()[1]);
}

/// A face line whose groups all resolve is the step that `add_faces` takes.
pub proof fn lemma_step_face(st: ParseState, line: Seq<u8>, idx: int, poly: Seq<IndexTuple>)
    requires
        words(line).len() > 0,
        words(line)[0] == word_f(),
        face_from(
            words(line),
            1,
            st.mesh.position.len() as int,
            st.mesh.texture.len() as int,
            st.mesh.normal.len() as int,
        ) == Ok::<Seq<IndexTuple>, Seq<u8>>(poly),
    ensures
        step(st, line, idx) == Ok::<ParseState, ObjErrorView>(add_face(st, poly)),
{
    assert(word_f()[0] != word_v()[0]);
    assert(word_f().len() != word_vn().len() && word_f().len() != word_vt().len());
}

proof fn lemma_add_faces(st: ParseState, polys: Seq<Seq<IndexTuple>>)
    requires
        st.group is Some,
    ensures
        add_faces(st, polys) == (ParseState {
            group: Some(GroupView { polys: st.group.unwrap().polys + polys, ..st.group.unwrap() }),
            ..st
        }),
    decreases polys.len(),
{
    let g = st.group.unwrap();
    if polys.len() == 0 {
        assert(g.polys + polys =~= g.polys);
    } else {
        lemma_add_faces(st, polys.drop_last());
        assert((g.polys + polys.drop_last()).push(polys.last()) =~= g.polys + polys);
    }
}

/// `k` material changes within one group, each followed by faces, starting
/// from a group without a material, leave `k` groups of that group's name
/// with consecutive indices, each holding the material of its `usemtl` and
/// exactly the faces read after it: the first `k - 1` closed in the object,
/// the last pending.
pub proof fn lemma_material_runs(st: ParseState, names: Seq<Seq<u8>>, faces: Seq<Seq<Seq<IndexTuple>>>)
    requires
        st.group is Some,
        st.group.unwrap().material is None,
        names.len() >= 1,
        faces.len() >= names.len(),
    ensures
        ({
            let g = st.group.unwrap();
            let k = names.len() as int;
            let r = run_materials(st, names, faces);
            &&& r.mesh == st.mesh
            &&& r.object.name == st.object.name
            &&& r.object.groups == st.object.groups + Seq::new(
                (k - 1) as nat,
                |i: int| run_group(g, i, names[i], faces[i]),
            )
            &&& r.group == Some(run_group(g, k - 1, names[k - 1], faces[k - 1]))
        }),
    decreases names.len(),
{
    let g = st.group.unwrap();
    let k = names.len() as int;
    if k == 1 {
        let u = use_material(st, usemtl_words(names[0]));
        assert(names.drop_last().len() == 0);
        lemma_add_faces(u, faces[0]);
        assert(st.object.groups + Seq::new(0, |i: int| run_group(g, i, names[i], faces[i])) =~= st.object.groups);
    } else {
        let prev_names = names.drop_last();
        lemma_material_runs(st, prev_names, faces);
        let prev = run_materials(st, prev_names, faces);
        let gp = run_group(g, k - 2, prev_names[k - 2], faces[k - 2]);
        assert(prev_names[k - 2] == names[k - 2]);
        assert(prev.group == Some(gp));
        let u = use_material(prev, usemtl_words(names[k - 1]));
        lemma_add_faces(u, faces[k - 1]);
        assert(Seq::<Seq<IndexTuple>>::empty() + faces[k - 1] =~= faces[k - 1]);
        let before = Seq::new((k - 2) as nat, |i: int| run_group(g, i, prev_names[i], faces[i]));
        let after = Seq::new((k - 1) as nat, |i: int| run_group(g, i, names[i], faces[i]));
        assert(before.push(gp) =~= after);
        assert((st.object.groups + before).push(gp) =~= st.object.groups + after);
    }
}

pub open spec fn resolved_group(g: GroupView, libs: Seq<MtlView>) -> GroupView {
    GroupView { material: resolved(g.material, libs), ..g }
}

/// An object with every group's material reference bound.
pub open spec fn resolved_object(o: ObjectView, libs: Seq<MtlView>) -> ObjectView {
    ObjectView { groups: o.groups.map_values(|g: GroupView| resolved_group(g, libs)), ..o }
}

/// The contents of the library sources.
pub open spec fn sources_view(srcs: Seq<Option<Vec<u8>>>) -> Seq<Option<Seq<u8>>> {
    srcs.map_values(|o: Option<Vec<u8>>| opt_text(o))
}

/// The material named `name` in the libraries, shared.
fn find_material(libs: &Vec<Mtl>, name: &[u8]) -> (r: Option<std::rc::Rc<Material>>)
    ensures
        match r {
            Some(m) => lookup(libs@.map_values(|l: Mtl| l@), name@, 0) == Some((*m)@),
            None => lookup(libs@.map_values(|l: Mtl| l@), name@, 0) == None::<MaterialView>,
        },
{
    let ghost lv = libs@.map_values(|l: Mtl| l@);
    let mut k: usize = 0;
    while k < libs.len()
        invariant
            lv == libs@.map_values(|l: Mtl| l@),
            k <= libs@.len(),
            lookup(lv, name@, 0) == lookup(lv, name@, k as int),
        decreases libs@.len() - k,
    {
        let ms = &libs[k].materials;
        let ghost mv = lv[k as int].materials;
        assert(mv == ms@.map_values(|m: std::rc::Rc<Material>| (*m)@));
        let mut j: usize = 0;
        while j < ms.len()
            invariant
                lv == libs@.map_values(|l: Mtl| l@),
                k < libs@.len(),
                mv == lv[k as int].materials,
                lookup(lv, name@, 0) == lookup(lv, name@, k as int),
                mv == ms@.map_values(|m: std::rc::Rc<Material>| (*m)@),
                j <= ms@.len(),
                first_named(mv, name@, 0) == first_named(mv, name@, j as int),
            decreases ms@.len() - j,
        {
            assert(mv[j as int] == (*ms@[j as int])@);
            if bytes_eq(ms[j].name.as_slice(), name) {
                assert(first_named(mv, name@, j as int) == Some(mv[j as int]));
                assert(first_named(lv[k as int].materials, name@, 0) == Some(mv[j as int]));
                assert(lookup(lv, name@, k as int) == Some(mv[j as int]));
                return Some(ms[j].clone());
            }
            j = j + 1;
        }
        assert(first_named(mv, name@, j as int) == None::<MaterialView>);
        assert(lookup(lv, name@, k as int) == lookup(lv, name@, k + 1));
        k = k + 1;
    }
    None
}

impl MeshData {
    /// Loads the material libraries from their contents, `sources[k]` being
    /// that of `material_libs[k]` or `None` when it could not be read, then
    /// binds every group's material reference to the material of that name
    /// in the first library that defines it. A library that fails keeps the
    /// others from neither loading nor binding; the failures are returned
    /// together.
    pub fn load_mtls_fn(&mut self, sources: &Vec<Option<Vec<u8>>>) -> (r: Result<(), MtlLibsLoadError>)
        requires
            sources@.len() == old(self)@.material_libs.len(),
        ensures
            final(self)@.position == old(self)@.position,
            final(self)@.texture == old(self)@.texture,
            final(self)@.normal == old(self)@.normal,
            final(self)@.material_libs == loaded_libs(old(self)@.material_libs, sources_view(sources@)),
            forall|k: int|
                0 <= k < old(self)@.material_libs.len() ==> #[trigger] final(self)@.material_libs[k]
                    == lib_after(old(self)@.material_libs[k], sources_view(sources@)[k]),
            final(self)@.objects == old(self)@.objects.map_values(
                |o: ObjectView| resolved_object(o, final(self)@.material_libs),
            ),
            match r {
                Ok(()) => load_errors(old(self)@.material_libs, sources_view(sources@), sources@.len() as int).len() == 0,
                Err(e) => e@ == load_errors(old(self)@.material_libs, sources_view(sources@), sources@.len() as int)
                    && e@.len() > 0,
            },
    {
        let ghost libs0 = self@.material_libs;
        let ghost srcs = sources_view(sources@);
        let mut errs: Vec<(Vec<u8>, MtlError)> = Vec::new();
        let n = self.material_libs.len();
        let mut k: usize = 0;
        assert(errs@.map_values(|p: (Vec<u8>, MtlError)| (p.0@, p.1@)) =~= load_errors(libs0, srcs, 0));
        while k < n
            invariant
                n == self@.material_libs.len(),
                n == libs0.len(),
                n == sources@.len(),
                srcs == sources_view(sources@),
                k <= n,
                self@.position == old(self)@.position,
                self@.texture == old(self)@.texture,
                self@.normal == old(self)@.normal,
                self@.objects == old(self)@.objects,
                libs0 == old(self)@.material_libs,
                forall|j: int| 0 <= j < k ==> (#[trigger] self.material_libs@[j])@ == lib_after(libs0[j], srcs[j]),
                forall|j: int| k <= j < n ==> (#[trigger] self.material_libs@[j])@ == libs0[j],
                errs@.map_values(|p: (Vec<u8>, MtlError)| (p.0@, p.1@)) == load_errors(libs0, srcs, k as int),
            decreases n - k,
        {
            let ghost before = errs@.map_values(|p: (Vec<u8>, MtlError)| (p.0@, p.1@));
            assert(srcs[k as int] == opt_text(sources@[k as int]));
            match &sources[k] {
                None => {
                    self.material_libs[k].materials = Vec::new();
                    proof {
                        let lk = self@.material_libs[k as int];
                        assert(lk == self.material_libs@[k as int]@);
                        assert(lk.materials =~= Seq::<MaterialView>::empty());
                        assert(lk == lib_after(libs0[k as int], srcs[k as int]));
                    }
                    let name = copy_bytes(&self.material_libs[k].filename);
                    errs.push((name, MtlError::Io));
                    assert(errs@.map_values(|p: (Vec<u8>, MtlError)| (p.0@, p.1@)) =~= before.push((libs0[k as int].filename, MtlErrorView::Io)));
                },
                Some(text) => {
                    let ghost t = text@;
                    let res = self.material_libs[k].reload(text.as_slice());
                    proof {
                        let lk = self@.material_libs[k as int];
                        assert(lk == self.material_libs@[k as int]@);
                        assert(srcs[k as int] == Some(t));
                        match res {
                            Ok(_) => {},
                            Err(_) => {
                                assert(lk.materials =~= Seq::<MaterialView>::empty());
                            },
                        }
                        assert(lk.filename == libs0[k as int].filename);
                        assert(lk == lib_after(libs0[k as int], srcs[k as int]));
                    }
                    match res {
                        Ok(()) => {},
                        Err(e) => {
                            let name = copy_bytes(&self.material_libs[k].filename);
                            let ghost ev = e@;
                            errs.push((name, e));
                            assert(errs@.map_values(|p: (Vec<u8>, MtlError)| (p.0@, p.1@)) =~= before.push((libs0[k as int].filename, ev)));
                        },
                    }
                },
            }
            assert(self.material_libs@[k as int]@ == lib_after(libs0[k as int], srcs[k as int]));
            k = k + 1;
        }
        let ghost libs1 = self@.material_libs;
        assert forall|j: int| 0 <= j < n implies #[trigger] libs1[j] == lib_after(libs0[j], srcs[j]) by {
            assert(libs1[j] == self.material_libs@[j]@);
        }
        assert(libs1 =~= loaded_libs(libs0, srcs));
        let no = self.objects.len();
        let mut i: usize = 0;
        while i < no
            invariant
                no == self@.objects.len(),
                no == old(self)@.objects.len(),
                i <= no,
                self@.position == old(self)@.position,
                self@.texture == old(self)@.texture,
                self@.normal == old(self)@.normal,
                self@.material_libs == libs1,
                forall|j: int| 0 <= j < i ==> #[trigger] self@.objects[j] == resolved_object(old(self)@.objects[j], libs1),
                forall|j: int| i <= j < no ==> #[trigger] self@.objects[j] == old(self)@.objects[j],
            decreases no - i,
        {
            let ng = self.objects[i].groups.len();
            let ghost o0 = old(self)@.objects[i as int];
            let ghost objs_before = self@.objects;
            assert(objs_before[i as int] == self.objects@[i as int]@);
            let mut j: usize = 0;
            while j < ng
                invariant
                    no == self@.objects.len(),
                    i < no,
                    j <= ng,
                    ng == o0.groups.len(),
                    o0 == old(self)@.objects[i as int],
                    self@.position == old(self)@.position,
                    self@.texture == old(self)@.texture,
                    self@.normal == old(self)@.normal,
                    self@.material_libs == libs1,
                    forall|x: int| 0 <= x < no && x != i ==> #[trigger] self@.objects[x] == objs_before[x],
                    self@.objects[i as int].name == o0.name,
                    self@.objects[i as int].groups.len() == ng,
                    forall|y: int| 0 <= y < j ==> #[trigger] self@.objects[i as int].groups[y] == resolved_group(o0.groups[y], libs1),
                    forall|y: int| j <= y < ng ==> #[trigger] self@.objects[i as int].groups[y] == o0.groups[y],
                decreases ng - j,
            {
                let ghost objs_j = self@.objects;
                assert(objs_j[i as int] == self.objects@[i as int]@);
                assert(objs_j[i as int].groups[j as int] == self.objects@[i as int].groups@[j as int]@);
                let name: Option<Vec<u8>> = match &self.objects[i].groups[j].material {
                    None => None,
                    Some(mat) => Some(copy_bytes(mat.name())),
                };
                match name {
                    None => {},
                    Some(nm) => {
                        let found = find_material(&self.material_libs, nm.as_slice());
                        match found {
                            None => {},
                            Some(m) => {
                                self.objects[i].groups[j].material = Some(ObjMaterial::Mtl(m));
                            },
                        }
                    },
                }
                assert(self@.objects[i as int] == self.objects@[i as int]@);
                assert(self@.objects[i as int].groups[j as int] == resolved_group(o0.groups[j as int], libs1));
                assert forall|y: int| 0 <= y < ng && y != j implies #[trigger] self@.objects[i as int].groups[y]
                    == objs_j[i as int].groups[y] by {
                    assert(self@.objects[i as int].groups[y] == self.objects@[i as int].groups@[y]@);
                }
                assert forall|x: int| 0 <= x < no && x != i implies #[trigger] self@.objects[x] == objs_j[x] by {
                    assert(self@.objects[x] == self.objects@[x]@);
                }
                j = j + 1;
            }
            assert(self@.objects[i as int].groups =~= o0.groups.map_values(|g: GroupView| resolved_group(g, libs1)));
            i = i + 1;
        }
        assert(self@.objects =~= old(self)@.objects.map_values(|o: ObjectView| resolved_object(o, libs1)));
        if errs.len() == 0 {
            Ok(())
        } else {
            Err(MtlLibsLoadError(errs))
        }
    }
}

} // verus!
