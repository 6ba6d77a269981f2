//! The records of a doubly-connected edge list and the slot maps that hold
//! them.
//!
//! Vertices, half-edges and faces live in three slot maps and name each other
//! by key. The maps are used through the functions of this file, whose
//! contracts are taken on trust from the slot map's implementation: each says
//! what the call does to the map of live keys, and to the number of slots
//! that the slot map has ever made.

use crate::primitives::Point;
use slotmap::{DefaultKey, SlotMap};
use vstd::prelude::*;

verus! {

/// `slotmap::DefaultKey`, the handle of a record. Nothing is assumed of a
/// key but that it can be copied and compared.
#[verifier::external_type_specification]
#[verifier::external_body]
pub struct ExDefaultKey(DefaultKey);

/// A vertex: its point and one half-edge that leaves it.
#[derive(Clone, Copy, Debug)]
pub struct DCELPoint {
    pub parent_key: DefaultKey,
    pub point2d: Point,
    pub incident_edge: Option<DefaultKey>,
}

/// A half-edge: the vertex it leaves, its neighbours around its face, the
/// half-edge that runs the other way, and the face on its left.
#[derive(Clone, Copy, Debug)]
pub struct DCELEdge {
    pub parent_key: DefaultKey,
    pub origin: Option<DefaultKey>,
    pub next: Option<DefaultKey>,
    pub prev: Option<DefaultKey>,
    pub twin: Option<DefaultKey>,
    pub incident_face: Option<DefaultKey>,
}

/// A face: a half-edge of its boundary, held in `outer` for a face inside
/// the polygon and in `inner` for the unbounded face.
#[derive(Clone, Copy, Debug)]
pub struct DCELFace {
    pub parent_key: DefaultKey,
    pub inner: Option<DefaultKey>,
    pub outer: Option<DefaultKey>,
}

impl DCELPoint {
    pub fn new(parent_key: DefaultKey, point2d: Point, incident_edge: Option<DefaultKey>) -> (r: DCELPoint)
        ensures
            r == (DCELPoint { parent_key, point2d, incident_edge }),
    {
        DCELPoint { parent_key, point2d, incident_edge }
    }
}

impl DCELEdge {
    pub fn new(parent_key: DefaultKey, links: EdgeLinks) -> (r: DCELEdge)
        ensures
            r == links.at(parent_key),
    {
        DCELEdge {
            parent_key,
            origin: links.origin,
            next: links.next,
            prev: links.prev,
            twin: links.twin,
            incident_face: links.incident_face,
        }
    }
}

impl DCELFace {
    pub fn new(parent_key: DefaultKey, inner: Option<DefaultKey>, outer: Option<DefaultKey>) -> (r: DCELFace)
        ensures
            r == (DCELFace { parent_key, inner, outer }),
    {
        DCELFace { parent_key, inner, outer }
    }
}

/// What a half-edge holds besides its own key.
#[derive(Clone, Copy, Debug)]
pub struct EdgeLinks {
    pub origin: Option<DefaultKey>,
    pub next: Option<DefaultKey>,
    pub prev: Option<DefaultKey>,
    pub twin: Option<DefaultKey>,
    pub incident_face: Option<DefaultKey>,
}

impl EdgeLinks {
    /// The half-edge with these links under the key `k`.
    pub open spec fn at(self, k: DefaultKey) -> DCELEdge {
        DCELEdge {
            parent_key: k,
            origin: self.origin,
            next: self.next,
            prev: self.prev,
            twin: self.twin,
            incident_face: self.incident_face,
        }
    }
}

/// The largest number of slots that a slot map is let to make here; a slot
/// map cannot grow beyond `u32::MAX` slots.
pub const SLOT_LIMIT: usize = 0xffff_fff0;

/// The `slotmap::SlotMap` of the vertices. The verifier does not look into
/// it: what it holds is known through `point_records` and `point_slots`.
#[verifier::external_body]
#[derive(Debug)]
pub struct PointArena {
    map: SlotMap<DefaultKey, DCELPoint>,
}

/// The `slotmap::SlotMap` of the half-edges. The verifier does not look
/// into it: what it holds is known through `edge_records` and `edge_slots`.
#[verifier::external_body]
#[derive(Debug)]
pub struct EdgeArena {
    map: SlotMap<DefaultKey, DCELEdge>,
}

/// The `slotmap::SlotMap` of the faces. The verifier does not look into it:
/// what it holds is known through `face_records` and `face_slots`.
#[verifier::external_body]
#[derive(Debug)]
pub struct FaceArena {
    map: SlotMap<DefaultKey, DCELFace>,
}

/// The live keys of the vertex map, each with its record.
pub uninterp spec fn point_records(a: PointArena) -> Map<DefaultKey, DCELPoint>;

/// The number of slots that the vertex map has made, its sentinel included.
pub uninterp spec fn point_slots(a: PointArena) -> nat;

/// The live keys of the half-edge map, each with its record.
pub uninterp spec fn edge_records(a: EdgeArena) -> Map<DefaultKey, DCELEdge>;

/// The number of slots that the half-edge map has made, its sentinel included.
pub uninterp spec fn edge_slots(a: EdgeArena) -> nat;

/// The live keys of the face map, each with its record.
pub uninterp spec fn face_records(a: FaceArena) -> Map<DefaultKey, DCELFace>;

/// The number of slots that the face map has made, its sentinel included.
pub uninterp spec fn face_slots(a: FaceArena) -> nat;

/// `==` on `slotmap::DefaultKey`: two keys are equal when they name the same
/// slot in the same version.
#[verifier::external_body]
pub(crate) fn same_key(a: DefaultKey, b: DefaultKey) -> (r: bool)
    ensures
        r == (a == b),
{
    a == b
}

/// `SlotMap::with_key`: an empty map, which holds its sentinel slot only.
#[verifier::external_body]
pub(crate) fn point_arena_new() -> (a: PointArena)
    ensures
        forall|k: DefaultKey| !(#[trigger] point_records(a).dom().contains(k)),
        point_slots(a) == 1,
{
    PointArena { map: SlotMap::with_key() }
}

/// `SlotMap::insert_with_key`: the record goes under a key that was not
/// live, and learns its key; at most one slot is made. The slot map panics
/// when it would have to make slot number `u32::MAX`.
#[verifier::external_body]
pub(crate) fn point_insert(a: &mut PointArena, point2d: Point, incident_edge: Option<DefaultKey>) -> (k: DefaultKey)
    requires
        point_slots(*old(a)) < SLOT_LIMIT,
    ensures
        !point_records(*old(a)).dom().contains(k),
        point_records(*final(a)) == point_records(*old(a)).insert(k, (DCELPoint { parent_key: k, point2d, incident_edge })),
        point_slots(*old(a)) <= point_slots(*final(a)) <= point_slots(*old(a)) + 1,
{
    a.map.insert_with_key(|k| DCELPoint::new(k, point2d, incident_edge))
}

/// `SlotMap::index`: the record under a live key.
#[verifier::external_body]
pub(crate) fn point_at(a: &PointArena, k: DefaultKey) -> (r: DCELPoint)
    requires
        point_records(*a).dom().contains(k),
    ensures
        r == point_records(*a)[k],
{
    a.map[k]
}

/// `SlotMap::index_mut`, assigned through: the record under a live key is
/// replaced, and nothing else changes.
#[verifier::external_body]
pub(crate) fn point_set(a: &mut PointArena, k: DefaultKey, v: DCELPoint)
    requires
        point_records(*old(a)).dom().contains(k),
    ensures
        point_records(*final(a)) == point_records(*old(a)).insert(k, v),
        point_slots(*final(a)) == point_slots(*old(a)),
{
    a.map[k] = v;
}

/// `SlotMap::keys`: every live key once, in the order of the slots.
#[verifier::external_body]
pub(crate) fn point_keys(a: &PointArena) -> (r: Vec<DefaultKey>)
    ensures
        r@.no_duplicates(),
        forall|k: DefaultKey| r@.contains(k) <==> point_records(*a).dom().contains(k),
{
    a.map.keys().collect()
}

/// `SlotMap::with_key`: an empty map, which holds its sentinel slot only.
#[verifier::external_body]
pub(crate) fn edge_arena_new() -> (a: EdgeArena)
    ensures
        forall|k: DefaultKey| !(#[trigger] edge_records(a).dom().contains(k)),
        edge_slots(a) == 1,
{
    EdgeArena { map: SlotMap::with_key() }
}

/// `SlotMap::insert_with_key`: the record goes under a key that was not
/// live, and learns its key; at most one slot is made. The slot map panics
/// when it would have to make slot number `u32::MAX`.
#[verifier::external_body]
pub(crate) fn edge_insert(a: &mut EdgeArena, links: EdgeLinks) -> (k: DefaultKey)
    requires
        edge_slots(*old(a)) < SLOT_LIMIT,
    ensures
        !edge_records(*old(a)).dom().contains(k),
        edge_records(*final(a)) == edge_records(*old(a)).insert(k, links.at(k)),
        edge_slots(*old(a)) <= edge_slots(*final(a)) <= edge_slots(*old(a)) + 1,
{
    a.map.insert_with_key(|k| DCELEdge::new(k, links))
}

/// `SlotMap::index`: the record under a live key.
#[verifier::external_body]
pub(crate) fn edge_at(a: &EdgeArena, k: DefaultKey) -> (r: DCELEdge)
    requires
        edge_records(*a).dom().contains(k),
    ensures
        r == edge_records(*a)[k],
{
    a.map[k]
}

/// `SlotMap::index_mut`, assigned through: the record under a live key is
/// replaced, and nothing else changes.
#[verifier::external_body]
pub(crate) fn edge_set(a: &mut EdgeArena, k: DefaultKey, v: DCELEdge)
    requires
        edge_records(*old(a)).dom().contains(k),
    ensures
        edge_records(*final(a)) == edge_records(*old(a)).insert(k, v),
        edge_slots(*final(a)) == edge_slots(*old(a)),
{
    a.map[k] = v;
}

/// `SlotMap::keys`: every live key once, in the order of the slots.
#[verifier::external_body]
pub(crate) fn edge_keys(a: &EdgeArena) -> (r: Vec<DefaultKey>)
    ensures
        r@.no_duplicates(),
        forall|k: DefaultKey| r@.contains(k) <==> edge_records(*a).dom().contains(k),
{
    a.map.keys().collect()
}

/// `SlotMap::with_key`: an empty map, which holds its sentinel slot only.
#[verifier::external_body]
pub(crate) fn face_arena_new() -> (a: FaceArena)
    ensures
        forall|k: DefaultKey| !(#[trigger] face_records(a).dom().contains(k)),
        face_slots(a) == 1,
{
    FaceArena { map: SlotMap::with_key() }
}

/// `SlotMap::insert_with_key`: the record goes under a key that was not
/// live, and learns its key; at most one slot is made. The slot map panics
/// when it would have to make slot number `u32::MAX`.
#[verifier::external_body]
pub(crate) fn face_insert(a: &mut FaceArena, inner: Option<DefaultKey>, outer: Option<DefaultKey>) -> (k: DefaultKey)
    requires
        face_slots(*old(a)) < SLOT_LIMIT,
    ensures
        !face_records(*old(a)).dom().contains(k),
        face_records(*final(a)) == face_records(*old(a)).insert(k, (DCELFace { parent_key: k, inner, outer })),
        face_slots(*old(a)) <= face_slots(*final(a)) <= face_slots(*old(a)) + 1,
{
    a.map.insert_with_key(|k| DCELFace::new(k, inner, outer))
}

/// `SlotMap::index`: the record under a live key.
#[verifier::external_body]
pub(crate) fn face_at(a: &FaceArena, k: DefaultKey) -> (r: &DCELFace)
    requires
        face_records(*a).dom().contains(k),
    ensures
        *r == face_records(*a)[k],
{
    &a.map[k]
}

/// `SlotMap::index_mut`, assigned through: the record under a live key is
/// replaced, and nothing else changes.
#[verifier::external_body]
pub(crate) fn face_set(a: &mut FaceArena, k: DefaultKey, v: DCELFace)
    requires
        face_records(*old(a)).dom().contains(k),
    ensures
        face_records(*final(a)) == face_records(*old(a)).insert(k, v),
        face_slots(*final(a)) == face_slots(*old(a)),
{
    a.map[k] = v;
}

/// `SlotMap::remove`: a live key leaves with its record; its slot is kept
/// for a later key, so no slot is made or given up.
#[verifier::external_body]
pub(crate) fn face_remove(a: &mut FaceArena, k: DefaultKey) -> (r: Option<DCELFace>)
    ensures
        r == (if face_records(*old(a)).dom().contains(k) {
            Some(face_records(*old(a))[k])
        } else {
            None
        }),
        face_records(*final(a)) == face_records(*old(a)).remove(k),
        face_slots(*final(a)) == face_slots(*old(a)),
{
    a.map.remove(k)
}

/// `SlotMap::keys`: every live key once, in the order of the slots.
#[verifier::external_body]
pub(crate) fn face_keys(a: &FaceArena) -> (r: Vec<DefaultKey>)
    ensures
        r@.no_duplicates(),
        forall|k: DefaultKey| r@.contains(k) <==> face_records(*a).dom().contains(k),
{
    a.map.keys().collect()
}

} // verus!
