use vstd::prelude::*;

verus! {

/// One typed segment of a composite resource identity: an opaque id scoped by
/// a type tag. Both parts are held as bytes; callers decide the text encoding.
#[derive(Debug, PartialEq, Eq)]
pub struct ResourceIdSegment {
    pub rtype: Vec<u8>,
    pub id: Vec<u8>,
}

/// Mathematical value of a segment: the pair of its byte strings.
pub type SegV = (Seq<u8>, Seq<u8>);

/// Mathematical value of a resource identity: the root-to-leaf segment path.
pub type RIdV = Seq<SegV>;

pub open spec fn seg_v(s: ResourceIdSegment) -> SegV {
    (s.rtype@, s.id@)
}

/// View of a segment list as a resource-identity path value.
pub open spec fn segs_v(v: Vec<ResourceIdSegment>) -> RIdV {
    v@.map_values(|s: ResourceIdSegment| seg_v(s))
}

/// A composite resource identity: a non-empty, ordered root-to-leaf path of
/// typed segments. Two resources are the same entity iff their full paths are
/// equal; the path is used verbatim as the storage key.
#[derive(Debug, PartialEq, Eq)]
pub struct ResourceId {
    pub segments: Vec<ResourceIdSegment>,
}

impl View for ResourceId {
    type V = RIdV;

    open spec fn view(&self) -> RIdV {
        segs_v(self.segments)
    }
}

/// Byte-string equality, byte for byte.
pub fn bytes_eq(a: &Vec<u8>, b: &Vec<u8>) -> (r: bool)
    ensures
        r == (a@ == b@),
{
    if a.len() != b.len() {
        assert(a@.len() != b@.len());
        return false;
    }
    let n = a.len();
    let mut i: usize = 0;
    while i < n
        invariant
            n == a@.len() == b@.len(),
            i <= n,
            forall|j: int| 0 <= j < i ==> a@[j] == b@[j],
        decreases n - i,
    {
        if a[i] != b[i] {
            return false;
        }
        i += 1;
    }
    proof {
        assert(a@ =~= b@);
    }
    true
}

pub fn seg_eq(a: &ResourceIdSegment, b: &ResourceIdSegment) -> (r: bool)
    ensures
        r == (seg_v(*a) == seg_v(*b)),
{
    let r = bytes_eq(&a.rtype, &b.rtype) && bytes_eq(&a.id, &b.id);
    r
}

pub fn id_eq(a: &ResourceId, b: &ResourceId) -> (r: bool)
    ensures
        r == (a@ == b@),
{
    if a.segments.len() != b.segments.len() {
        assert(a@.len() != b@.len());
        return false;
    }
    let n = a.segments.len();
    let mut i: usize = 0;
    while i < n
        invariant
            n == a.segments@.len() == b.segments@.len(),
            i <= n,
            forall|j: int| 0 <= j < i ==> a@[j] == b@[j],
        decreases n - i,
    {
        if !seg_eq(&a.segments[i], &b.segments[i]) {
            assert(a@[i as int] != b@[i as int]);
            return false;
        }
        i += 1;
    }
    proof {
        assert(a@ =~= b@);
    }
    true
}

/// Byte-for-byte copy of a byte string.
pub fn copy_bytes(a: &Vec<u8>) -> (r: Vec<u8>)
    ensures
        r@ == a@,
{
    let mut r: Vec<u8> = Vec::new();
    let n = a.len();
    let mut i: usize = 0;
    while i < n
        invariant
            n == a@.len(),
            i <= n,
            r@ == a@.subrange(0, i as int),
        decreases n - i,
    {
        r.push(a[i]);
        proof {
            assert(r@ =~= a@.subrange(0, i + 1 as int));
        }
        i += 1;
    }
    proof {
        assert(r@ =~= a@);
    }
    r
}

pub fn copy_seg(a: &ResourceIdSegment) -> (r: ResourceIdSegment)
    ensures
        seg_v(r) == seg_v(*a),
{
    ResourceIdSegment { rtype: copy_bytes(&a.rtype), id: copy_bytes(&a.id) }
}

pub fn copy_segments(a: &Vec<ResourceIdSegment>) -> (r: Vec<ResourceIdSegment>)
    ensures
        segs_v(r) == segs_v(*a),
{
    let mut r: Vec<ResourceIdSegment> = Vec::new();
    let n = a.len();
    let mut i: usize = 0;
    while i < n
        invariant
            n == a@.len(),
            i <= n,
            r@.len() == i,
            forall|j: int| 0 <= j < i ==> seg_v(#[trigger] r@[j]) == seg_v(a@[j]),
        decreases n - i,
    {
        r.push(copy_seg(&a[i]));
        i += 1;
    }
    proof {
        assert(segs_v(r) =~= segs_v(*a));
    }
    r
}

pub fn copy_id(a: &ResourceId) -> (r: ResourceId)
    ensures
        r@ == a@,
{
    let r = ResourceId { segments: copy_segments(&a.segments) };
    proof {
        assert(r@ =~= a@);
    }
    r
}

/// View of an attribute list as a sequence of (key, value) byte-string pairs.
pub open spec fn attrs_v(a: Vec<(Vec<u8>, Vec<u8>)>) -> Seq<(Seq<u8>, Seq<u8>)> {
    a@.map_values(|kv: (Vec<u8>, Vec<u8>)| (kv.0@, kv.1@))
}

/// Copy of an attribute list: keys paired with opaque serialized values.
pub fn copy_attrs(a: &Vec<(Vec<u8>, Vec<u8>)>) -> (r: Vec<(Vec<u8>, Vec<u8>)>)
    ensures
        attrs_v(r) == attrs_v(*a),
{
    let mut r: Vec<(Vec<u8>, Vec<u8>)> = Vec::new();
    let n = a.len();
    let mut i: usize = 0;
    while i < n
        invariant
            n == a@.len(),
            i <= n,
            r@.len() == i,
            forall|j: int|
                0 <= j < i ==> ((#[trigger] r@[j]).0@, r@[j].1@) == (a@[j].0@, a@[j].1@),
        decreases n - i,
    {
        let kv = (copy_bytes(&a[i].0), copy_bytes(&a[i].1));
        r.push(kv);
        i += 1;
    }
    proof {
        assert(r@.map_values(|kv: (Vec<u8>, Vec<u8>)| (kv.0@, kv.1@)) =~= a@.map_values(
            |kv: (Vec<u8>, Vec<u8>)| (kv.0@, kv.1@),
        ));
    }
    r
}

} // verus!
