//! Codecs and the builder that resolves a descriptor table into one.
use vstd::prelude::*;
use crate::cursor::{
    Cursor, be_value, signed_of, unsigned_of, be_i32_bytes, be_i64_bytes, to_i32, to_i64,
    lemma_be_value_bound, lemma_pow256_facts, lemma_be_round_trip,
};
use crate::descriptors::{Descriptor, ShapeElementDescriptor, TupleElementDescriptor, TypePos};
use crate::errors::{CodecError, DecodeError};
use crate::value::{Scalar, Value};
use crate::queryable::{split_object, spec_split_object, payloads_view, payload_view, lemma_elements_len};
use vstd::slice::slice_to_vec;

verus! {

/// Identity of the standard 32-bit integer type.
pub const STD_INT32: u128 = 0x104;

/// Identity of the standard 64-bit integer type.
pub const STD_INT64: u128 = 0x105;

/// Identity of the standard JSON type.
pub const STD_JSON: u128 = 0x10f;

/// One element of an object shape codec; `codec` is the position whose
/// codec decodes the element.
#[derive(Debug, Clone, PartialEq, Eq)]
pub struct ShapeElement {
    pub flag_implicit: bool,
    pub flag_link_property: bool,
    pub flag_link: bool,
    pub name: String,
    pub codec: TypePos,
}

/// The elements of an object, in wire order.
#[derive(Debug, Clone, PartialEq, Eq)]
pub struct ObjectShape {
    pub elements: Vec<ShapeElement>,
}

/// One element of a named tuple codec.
#[derive(Debug, Clone, PartialEq, Eq)]
pub struct TupleElement {
    pub name: String,
    pub codec: TypePos,
}

/// The elements of a named tuple, in wire order.
#[derive(Debug, Clone, PartialEq, Eq)]
pub struct NamedTupleShape {
    pub elements: Vec<TupleElement>,
}

/// A decoder for one wire type. Composite codecs name their children by
/// position, so a child that several parents share is built once.
#[derive(Debug, Clone, PartialEq, Eq)]
pub enum Codec {
    Int32,
    Int64,
    Object(ObjectShape),
    NamedTuple(NamedTupleShape),
}

/// The codecs of one descriptor table, by position, and the root position.
/// A position holds a codec exactly when building the root resolved it.
#[derive(Debug, Clone)]
pub struct CodecTree {
    nodes: Vec<Option<Codec>>,
    depths: Vec<usize>,
    root: u16,
}

/// The registered scalar codec of an identity.
pub open spec fn spec_scalar_codec(uuid: u128) -> Result<Codec, CodecError> {
    if uuid == STD_INT32 {
        Ok(Codec::Int32)
    } else if uuid == STD_INT64 {
        Ok(Codec::Int64)
    } else {
        Err(CodecError::UndefinedBaseScalar { uuid })
    }
}

/// The positions a descriptor refers to, in order.
pub open spec fn desc_children(d: Descriptor) -> Seq<u16> {
    match d {
        Descriptor::BaseScalar(_) => Seq::empty(),
        Descriptor::ObjectShape(o) => Seq::new(o.elements@.len(), |i: int| o.elements@[i].type_pos.0),
        Descriptor::NamedTuple(t) => Seq::new(t.elements@.len(), |i: int| t.elements@[i].type_pos.0),
    }
}

/// The positions a codec refers to, in order.
pub open spec fn codec_children(c: Codec) -> Seq<u16> {
    match c {
        Codec::Object(o) => Seq::new(o.elements@.len(), |i: int| o.elements@[i].codec.0),
        Codec::NamedTuple(t) => Seq::new(t.elements@.len(), |i: int| t.elements@[i].codec.0),
        _ => Seq::empty(),
    }
}

/// The first failure met when resolving the descriptor at `pos`, if any.
/// The position must lie in the table; a scalar must have a registered
/// codec; a composite resolves its children in order, each with one less of
/// `depth`, the number of composites that may still stand below it. A
/// composite met with no depth left lies on a loop of references.
pub open spec fn spec_resolve(descriptors: Seq<Descriptor>, pos: int, depth: nat) -> Option<CodecError>
    decreases depth, 0int,
{
    if pos < 0 || pos >= descriptors.len() {
        Some(CodecError::UnexpectedTypePos { position: pos as u16 })
    } else {
        match descriptors[pos] {
            Descriptor::BaseScalar(b) => match spec_scalar_codec(b.id) {
                Ok(_) => None,
                Err(e) => Some(e),
            },
            _ => if depth == 0 {
                Some(CodecError::CyclicReference { position: pos as u16 })
            } else {
                spec_resolve_children(descriptors, desc_children(descriptors[pos]), 0, (depth - 1) as nat)
            },
        }
    }
}

/// The first failure met when resolving the positions `cs[j..]` in order.
pub open spec fn spec_resolve_children(descriptors: Seq<Descriptor>, cs: Seq<u16>, j: int, depth: nat) -> Option<
    CodecError,
>
    decreases depth, cs.len() - j,
{
    if j < 0 || j >= cs.len() {
        None
    } else {
        match spec_resolve(descriptors, cs[j] as int, depth) {
            Some(e) => Some(e),
            None => spec_resolve_children(descriptors, cs, j + 1, depth),
        }
    }
}

/// Whether codec `c` is the one descriptor `d` resolves to.
pub open spec fn node_matches(c: Codec, d: Descriptor) -> bool {
    match d {
        Descriptor::BaseScalar(b) => spec_scalar_codec(b.id) == Ok::<Codec, CodecError>(c),
        Descriptor::ObjectShape(o) => match c {
            Codec::Object(s) => s.elements@.len() == o.elements@.len() && forall|i: int|
                0 <= i < o.elements@.len() ==> {
                    let e = #[trigger] s.elements@[i];
                    let f = o.elements@[i];
                    &&& e.flag_implicit == f.flag_implicit
                    &&& e.flag_link_property == f.flag_link_property
                    &&& e.flag_link == f.flag_link
                    &&& e.name@ == f.name@
                    &&& e.codec == f.type_pos
                },
            _ => false,
        },
        Descriptor::NamedTuple(t) => match c {
            Codec::NamedTuple(s) => s.elements@.len() == t.elements@.len() && forall|i: int|
                0 <= i < t.elements@.len() ==> {
                    let e = #[trigger] s.elements@[i];
                    let f = t.elements@[i];
                    &&& e.name@ == f.name@
                    &&& e.codec == f.type_pos
                },
            _ => false,
        },
    }
}

/// Every codec in `nodes` refers only to positions that hold codecs and
/// that resolved with less depth than it.
pub open spec fn nodes_closed(nodes: Seq<Option<Codec>>, depths: Seq<usize>) -> bool {
    forall|q: int, j: int|
        0 <= q < nodes.len() && nodes[q] is Some && 0 <= j < codec_children(nodes[q]->Some_0).len() ==> {
            let c = #[trigger] codec_children(nodes[q]->Some_0)[j] as int;
            &&& c < nodes.len()
            &&& nodes[c] is Some
            &&& depths[c] < depths[q]
        }
}

/// The memo table of a build over `descriptors`: each codec it holds is the
/// one its descriptor resolves to, and resolving succeeds with the depth
/// recorded beside it.
pub open spec fn memo_ok(descriptors: Seq<Descriptor>, nodes: Seq<Option<Codec>>, depths: Seq<usize>) -> bool {
    &&& nodes.len() == descriptors.len()
    &&& depths.len() == descriptors.len()
    &&& nodes_closed(nodes, depths)
    &&& forall|q: int|
        0 <= q < nodes.len() && (#[trigger] nodes[q]) is Some ==> spec_resolve(descriptors, q, depths[q] as nat)
            is None && node_matches(nodes[q]->Some_0, descriptors[q])
}

/// The memo table keeps every codec it held; recorded depths only shrink.
pub open spec fn memo_grows(
    before: Seq<Option<Codec>>,
    after: Seq<Option<Codec>>,
    dbefore: Seq<usize>,
    dafter: Seq<usize>,
) -> bool {
    &&& after.len() == before.len()
    &&& dafter.len() == dbefore.len()
    &&& forall|q: int|
        0 <= q < before.len() && (#[trigger] before[q]) is Some ==> after[q] == before[q] && dafter[q]
            <= dbefore[q]
}

pub proof fn lemma_resolve_mono(descriptors: Seq<Descriptor>, pos: int, d: nat, d2: nat)
    requires
        d <= d2,
        spec_resolve(descriptors, pos, d) is None,
    ensures
        spec_resolve(descriptors, pos, d2) is None,
    decreases d, 0int,
{
    if 0 <= pos < descriptors.len() && !(descriptors[pos] is BaseScalar) {
        lemma_children_mono(descriptors, desc_children(descriptors[pos]), 0, (d - 1) as nat, (d2 - 1) as nat);
    }
}

pub proof fn lemma_children_mono(descriptors: Seq<Descriptor>, cs: Seq<u16>, j: int, d: nat, d2: nat)
    requires
        d <= d2,
        spec_resolve_children(descriptors, cs, j, d) is None,
    ensures
        spec_resolve_children(descriptors, cs, j, d2) is None,
    decreases d, cs.len() - j,
{
    if 0 <= j < cs.len() {
        lemma_resolve_mono(descriptors, cs[j] as int, d, d2);
        lemma_children_mono(descriptors, cs, j + 1, d, d2);
    }
}

/// The first index from `i` on whose descriptor carries `root`, or the table's length.
pub open spec fn first_with_id(descriptors: Seq<Descriptor>, root: u128, i: int) -> int
    decreases descriptors.len() - i,
{
    if i >= descriptors.len() {
        descriptors.len() as int
    } else if descriptors[i].spec_id() == root {
        i
    } else {
        first_with_id(descriptors, root, i + 1)
    }
}

/// The failure of building a codec for `root` from `descriptors`, if any.
/// The root may have as many composites below it as the table has positions.
pub open spec fn spec_build_codec(root: u128, descriptors: Seq<Descriptor>) -> Option<CodecError> {
    let i = first_with_id(descriptors, root, 0);
    if i >= descriptors.len() {
        Some(CodecError::UuidNotFound { uuid: root })
    } else if i > u16::MAX as int {
        Some(CodecError::TooManyDescriptors { index: i as usize })
    } else {
        spec_resolve(descriptors, i, descriptors.len())
    }
}

/// The failure in a result, if any.
pub open spec fn failure<T>(r: Result<T, CodecError>) -> Option<CodecError> {
    match r {
        Ok(_) => None,
        Err(e) => Some(e),
    }
}

/// Whether the table holds a descriptor carrying `root`.
pub open spec fn has_id(descriptors: Seq<Descriptor>, root: u128) -> bool {
    exists|i: int| 0 <= i < descriptors.len() && #[trigger] descriptors[i].spec_id() == root
}

pub proof fn lemma_first_with_id(descriptors: Seq<Descriptor>, root: u128, i: int)
    requires
        0 <= i <= descriptors.len(),
    ensures
        i <= first_with_id(descriptors, root, i) <= descriptors.len(),
        first_with_id(descriptors, root, i) < descriptors.len() ==> descriptors[first_with_id(
            descriptors,
            root,
            i,
        )].spec_id() == root,
        first_with_id(descriptors, root, i) == descriptors.len() ==> forall|j: int|
            i <= j < descriptors.len() ==> #[trigger] descriptors[j].spec_id() != root,
        forall|j: int| i <= j < first_with_id(descriptors, root, i) ==> #[trigger] descriptors[j].spec_id() != root,
    decreases descriptors.len() - i,
{
    if i < descriptors.len() && descriptors[i].spec_id() != root {
        lemma_first_with_id(descriptors, root, i + 1);
    }
}

/// Looks up the codec registered for a scalar identity.
pub fn scalar_codec(uuid: u128) -> (r: Result<Codec, CodecError>)
    ensures
        r == spec_scalar_codec(uuid),
        r == Err::<Codec, CodecError>(CodecError::UndefinedBaseScalar { uuid }) <==> (uuid != STD_INT32
            && uuid != STD_INT64),
{
    if uuid == STD_INT32 {
        Ok(Codec::Int32)
    } else if uuid == STD_INT64 {
        Ok(Codec::Int64)
    } else {
        Err(CodecError::UndefinedBaseScalar { uuid })
    }
}

fn object_codec(elements: &Vec<ShapeElementDescriptor>) -> (r: Codec)
    ensures
        r is Object,
        r->Object_0.elements@.len() == elements@.len(),
        forall|i: int|
            0 <= i < elements@.len() ==> {
                let e = #[trigger] r->Object_0.elements@[i];
                let f = elements@[i];
                &&& e.flag_implicit == f.flag_implicit
                &&& e.flag_link_property == f.flag_link_property
                &&& e.flag_link == f.flag_link
                &&& e.name@ == f.name@
                &&& e.codec == f.type_pos
            },
{
    let mut out: Vec<ShapeElement> = Vec::new();
    let mut j: usize = 0;
    while j < elements.len()
        invariant
            j <= elements@.len(),
            out@.len() == j,
            forall|i: int|
                0 <= i < j ==> {
                    let e = #[trigger] out@[i];
                    let f = elements@[i];
                    &&& e.flag_implicit == f.flag_implicit
                    &&& e.flag_link_property == f.flag_link_property
                    &&& e.flag_link == f.flag_link
                    &&& e.name@ == f.name@
                    &&& e.codec == f.type_pos
                },
        decreases elements.len() - j,
    {
        let f = &elements[j];
        out.push(
            ShapeElement {
                flag_implicit: f.flag_implicit,
                flag_link_property: f.flag_link_property,
                flag_link: f.flag_link,
                name: f.name.clone(),
                codec: f.type_pos,
            },
        );
        j = j + 1;
    }
    Codec::Object(ObjectShape { elements: out })
}

fn named_tuple_codec(elements: &Vec<TupleElementDescriptor>) -> (r: Codec)
    ensures
        r is NamedTuple,
        r->NamedTuple_0.elements@.len() == elements@.len(),
        forall|i: int|
            0 <= i < elements@.len() ==> {
                let e = #[trigger] r->NamedTuple_0.elements@[i];
                &&& e.name@ == elements@[i].name@
                &&& e.codec == elements@[i].type_pos
            },
{
    let mut out: Vec<TupleElement> = Vec::new();
    let mut j: usize = 0;
    while j < elements.len()
        invariant
            j <= elements@.len(),
            out@.len() == j,
            forall|i: int|
                0 <= i < j ==> {
                    let e = #[trigger] out@[i];
                    &&& e.name@ == elements@[i].name@
                    &&& e.codec == elements@[i].type_pos
                },
        decreases elements.len() - j,
    {
        out.push(TupleElement { name: elements[j].name.clone(), codec: elements[j].type_pos });
        j = j + 1;
    }
    Codec::NamedTuple(NamedTupleShape { elements: out })
}

struct CodecBuilder<'a> {
    descriptors: &'a [Descriptor],
}

impl<'a> CodecBuilder<'a> {
    /// The positions the descriptor at `pos` refers to.
    fn children(&self, pos: usize) -> (r: Vec<u16>)
        requires
            pos < self.descriptors@.len(),
        ensures
            r@ == desc_children(self.descriptors@[pos as int]),
    {
        let mut out: Vec<u16> = Vec::new();
        match &self.descriptors[pos] {
            Descriptor::BaseScalar(_) => {},
            Descriptor::ObjectShape(o) => {
                let mut j: usize = 0;
                while j < o.elements.len()
                    invariant
                        j <= o.elements@.len(),
                        out@ =~= Seq::new(j as nat, |i: int| o.elements@[i].type_pos.0),
                    decreases o.elements.len() - j,
                {
                    out.push(o.elements[j].type_pos.0);
                    j = j + 1;
                }
            },
            Descriptor::NamedTuple(t) => {
                let mut j: usize = 0;
                while j < t.elements.len()
                    invariant
                        j <= t.elements@.len(),
                        out@ =~= Seq::new(j as nat, |i: int| t.elements@[i].type_pos.0),
                    decreases t.elements.len() - j,
                {
                    out.push(t.elements[j].type_pos.0);
                    j = j + 1;
                }
            },
        }
        assert(out@ =~= desc_children(self.descriptors@[pos as int]));
        out
    }

    /// Resolves the children of the composite descriptor at `pos`, in
    /// order, each with `depth`.
    fn build_children(
        &self,
        pos: usize,
        depth: usize,
        memo: &mut Vec<Option<Codec>>,
        depths: &mut Vec<usize>,
    ) -> (r: Result<(), CodecError>)
        requires
            pos < self.descriptors@.len(),
            memo_ok(self.descriptors@, old(memo)@, old(depths)@),
        ensures
            memo_ok(self.descriptors@, final(memo)@, final(depths)@),
            memo_grows(old(memo)@, final(memo)@, old(depths)@, final(depths)@),
            failure(r) == spec_resolve_children(
                self.descriptors@,
                desc_children(self.descriptors@[pos as int]),
                0,
                depth as nat,
            ),
            r is Ok ==> forall|i: int|
                0 <= i < desc_children(self.descriptors@[pos as int]).len() ==> {
                    let c = #[trigger] desc_children(self.descriptors@[pos as int])[i] as int;
                    &&& c < self.descriptors@.len()
                    &&& final(memo)@[c] is Some
                    &&& final(depths)@[c] <= depth
                },
        decreases depth, 1int,
    {
        let cs = self.children(pos);
        let mut j: usize = 0;
        while j < cs.len()
            invariant
                pos < self.descriptors@.len(),
                cs@ == desc_children(self.descriptors@[pos as int]),
                j <= cs@.len(),
                memo_ok(self.descriptors@, memo@, depths@),
                memo_grows(old(memo)@, memo@, old(depths)@, depths@),
                spec_resolve_children(self.descriptors@, cs@, 0, depth as nat) == spec_resolve_children(
                    self.descriptors@,
                    cs@,
                    j as int,
                    depth as nat,
                ),
                forall|i: int|
                    0 <= i < j ==> (#[trigger] cs@[i] as int) < self.descriptors@.len() && memo@[cs@[i] as int]
                        is Some && depths@[cs@[i] as int] <= depth,
            decreases cs.len() - j,
        {
            let ghost before = memo@;
            let ghost dbefore = depths@;
            match self.build(TypePos(cs[j]), depth, memo, depths) {
                Err(e) => {
                    return Err(e);
                },
                Ok(()) => {},
            }
            assert forall|i: int| 0 <= i < j + 1 implies (#[trigger] cs@[i] as int) < self.descriptors@.len()
                && memo@[cs@[i] as int] is Some && depths@[cs@[i] as int] <= depth by {
                let c = cs@[i] as int;
                if i < j {
                    assert(before[c] is Some);
                    assert(dbefore[c] <= depth);
                    assert(memo@[c] == before[c] && depths@[c] <= dbefore[c]);
                } else {
                    assert(c == TypePos(cs@[j as int]).0 as int);
                }
            }
            j = j + 1;
        }
        Ok(())
    }

    /// Resolves the descriptor at `pos` with `depth` into the memo table,
    /// children first. A position that the table holds with no more depth
    /// is not resolved again.
    fn build(&self, pos: TypePos, depth: usize, memo: &mut Vec<Option<Codec>>, depths: &mut Vec<usize>) -> (r: Result<
        (),
        CodecError,
    >)
        requires
            memo_ok(self.descriptors@, old(memo)@, old(depths)@),
        ensures
            memo_ok(self.descriptors@, final(memo)@, final(depths)@),
            memo_grows(old(memo)@, final(memo)@, old(depths)@, final(depths)@),
            failure(r) == spec_resolve(self.descriptors@, pos.0 as int, depth as nat),
            r is Ok ==> (pos.0 as int) < self.descriptors@.len() && final(memo)@[pos.0 as int] is Some
                && final(depths)@[pos.0 as int] <= depth,
        decreases depth, 0int,
    {
        let p = pos.0 as usize;
        if p >= self.descriptors.len() {
            return Err(CodecError::UnexpectedTypePos { position: pos.0 });
        }
        if memo[p].is_some() && depths[p] <= depth {
            assert(memo@[p as int] is Some);
            proof {
                lemma_resolve_mono(self.descriptors@, p as int, depths@[p as int] as nat, depth as nat);
            }
            return Ok(());
        }
        let node = match &self.descriptors[p] {
            Descriptor::BaseScalar(base) => match scalar_codec(base.id) {
                Err(e) => {
                    return Err(e);
                },
                Ok(c) => c,
            },
            Descriptor::ObjectShape(o) => {
                if depth == 0 {
                    return Err(CodecError::CyclicReference { position: pos.0 });
                }
                match self.build_children(p, depth - 1, memo, depths) {
                    Err(e) => {
                        return Err(e);
                    },
                    Ok(()) => {},
                }
                object_codec(&o.elements)
            },
            Descriptor::NamedTuple(t) => {
                if depth == 0 {
                    return Err(CodecError::CyclicReference { position: pos.0 });
                }
                match self.build_children(p, depth - 1, memo, depths) {
                    Err(e) => {
                        return Err(e);
                    },
                    Ok(()) => {},
                }
                named_tuple_codec(&t.elements)
            },
        };
        assert(node_matches(node, self.descriptors@[p as int]));
        assert(spec_resolve(self.descriptors@, p as int, depth as nat) is None);
        let ghost before = memo@;
        let ghost dbefore = depths@;
        if memo[p].is_none() {
            memo.set(p, Some(node));
            depths.set(p, depth);
        } else if depth < depths[p] {
            depths.set(p, depth);
        }
        proof {
            assert forall|q: int, j: int|
                0 <= q < memo@.len() && memo@[q] is Some && 0 <= j < codec_children(memo@[q]->Some_0).len()
                    implies {
                    let c = #[trigger] codec_children(memo@[q]->Some_0)[j] as int;
                    &&& c < memo@.len()
                    &&& memo@[c] is Some
                    &&& depths@[c] < depths@[q]
                } by {
                let c = codec_children(memo@[q]->Some_0)[j] as int;
                if q != p {
                    assert(before[q] == memo@[q]);
                    assert(codec_children(before[q]->Some_0)[j] as int == c);
                    assert(before[c] is Some && dbefore[c] < dbefore[q]);
                    assert(depths@[q] == dbefore[q]);
                } else {
                    lemma_children_match(memo@[p as int]->Some_0, self.descriptors@[p as int]);
                    assert(c == desc_children(self.descriptors@[p as int])[j] as int);
                    assert(before[c] is Some && dbefore[c] < depth);
                    if before[p as int] is Some {
                        lemma_children_match(before[p as int]->Some_0, self.descriptors@[p as int]);
                        assert(codec_children(before[p as int]->Some_0)[j] as int == c);
                        assert(dbefore[c] < dbefore[p as int]);
                    }
                    assert(c != p);
                }
            }
            assert forall|q: int|
                0 <= q < memo@.len() && (#[trigger] memo@[q]) is Some implies spec_resolve(
                    self.descriptors@,
                    q,
                    depths@[q] as nat,
                ) is None && node_matches(memo@[q]->Some_0, self.descriptors@[q]) by {
                if q != p {
                    assert(before[q] == memo@[q]);
                }
            }
        }
        Ok(())
    }
}

/// A memo table of `n` positions, none resolved yet.
fn empty_memo(n: usize) -> (r: Vec<Option<Codec>>)
    ensures
        r@.len() == n,
        forall|q: int| 0 <= q < n ==> #[trigger] r@[q] is None,
{
    let mut memo: Vec<Option<Codec>> = Vec::new();
    while memo.len() < n
        invariant
            memo@.len() <= n,
            forall|q: int| 0 <= q < memo@.len() ==> #[trigger] memo@[q] is None,
        decreases n - memo.len(),
    {
        memo.push(None);
    }
    memo
}

pub proof fn lemma_children_match(c: Codec, d: Descriptor)
    requires
        node_matches(c, d),
    ensures
        codec_children(c) == desc_children(d),
{
    assert(codec_children(c) =~= desc_children(d));
}

/// A depth-sized table of `n` positions.
fn zero_depths(n: usize) -> (r: Vec<usize>)
    ensures
        r@.len() == n,
{
    let mut v: Vec<usize> = Vec::new();
    while v.len() < n
        invariant
            v@.len() <= n,
        decreases n - v.len(),
    {
        v.push(0);
    }
    v
}

pub proof fn lemma_resolve_errors(descriptors: Seq<Descriptor>, pos: int, depth: nat)
    ensures
        spec_resolve(descriptors, pos, depth) is Some ==> !(spec_resolve(descriptors, pos, depth)->Some_0 is UuidNotFound),
    decreases depth, 0int,
{
    if 0 <= pos < descriptors.len() && !(descriptors[pos] is BaseScalar) && depth > 0 {
        lemma_resolve_children_errors(descriptors, desc_children(descriptors[pos]), 0, (depth - 1) as nat);
    }
}

pub proof fn lemma_resolve_children_errors(descriptors: Seq<Descriptor>, cs: Seq<u16>, j: int, depth: nat)
    ensures
        spec_resolve_children(descriptors, cs, j, depth) is Some ==> !(spec_resolve_children(
            descriptors,
            cs,
            j,
            depth,
        )->Some_0 is UuidNotFound),
    decreases depth, cs.len() - j,
{
    if 0 <= j < cs.len() {
        lemma_resolve_errors(descriptors, cs[j] as int, depth);
        lemma_resolve_children_errors(descriptors, cs, j + 1, depth);
    }
}

/// Builds the codecs for the first descriptor in the table that carries
/// `root`. A position reached again is looked up in the memo table, and is
/// resolved again only when reached with less depth than it was recorded with.
pub fn build_codec(root: u128, descriptors: &[Descriptor]) -> (r: Result<CodecTree, CodecError>)
    ensures
        failure(r) == spec_build_codec(root, descriptors@),
        (r is Err && r->Err_0 == (CodecError::UuidNotFound { uuid: root })) <==> !has_id(
            descriptors@,
            root,
        ),
        r is Ok ==> r->Ok_0.wf() && r->Ok_0.spec_root() == first_with_id(descriptors@, root, 0)
            && memo_ok(descriptors@, r->Ok_0.spec_nodes(), r->Ok_0.spec_depths()),
{
    proof {
        lemma_first_with_id(descriptors@, root, 0);
    }
    let dec = CodecBuilder { descriptors };
    let mut idx: usize = 0;
    while idx < descriptors.len()
        invariant
            idx <= descriptors@.len(),
            dec.descriptors@ == descriptors@,
            forall|j: int| 0 <= j < idx ==> #[trigger] descriptors@[j].spec_id() != root,
            first_with_id(descriptors@, root, 0) == first_with_id(descriptors@, root, idx as int),
        decreases descriptors.len() - idx,
    {
        if descriptors[idx].id() == root {
            if idx > u16::MAX as usize {
                return Err(CodecError::TooManyDescriptors { index: idx });
            }
            let mut memo = empty_memo(descriptors.len());
            let mut depths = zero_depths(descriptors.len());
            assert(first_with_id(descriptors@, root, idx as int) == idx);
            match dec.build(TypePos(idx as u16), descriptors.len(), &mut memo, &mut depths) {
                Err(e) => {
                    proof {
                        lemma_resolve_errors(descriptors@, idx as int, descriptors@.len());
                    }
                    return Err(e);
                },
                Ok(()) => {
                    assert(descriptors@[idx as int].spec_id() == root);
                    return Ok(CodecTree { nodes: memo, depths, root: idx as u16 });
                },
            }
        }
        idx = idx + 1;
    }
    Err(CodecError::UuidNotFound { uuid: root })
}

impl CodecTree {
    pub closed spec fn spec_nodes(&self) -> Seq<Option<Codec>> {
        self.nodes@
    }

    pub closed spec fn spec_depths(&self) -> Seq<usize> {
        self.depths@
    }

    pub closed spec fn spec_root(&self) -> int {
        self.root as int
    }

    /// The root holds a codec, and every codec refers only to positions
    /// that hold codecs and resolved with less depth.
    pub open spec fn wf(&self) -> bool {
        &&& 0 <= self.spec_root() < self.spec_nodes().len()
        &&& self.spec_nodes()[self.spec_root()] is Some
        &&& self.spec_depths().len() == self.spec_nodes().len()
        &&& nodes_closed(self.spec_nodes(), self.spec_depths())
    }

    /// The root position.
    pub fn root(&self) -> (r: TypePos)
        ensures
            r.0 as int == self.spec_root(),
    {
        TypePos(self.root)
    }

    /// The codec at `pos`, if building the root resolved it.
    pub fn codec_at(&self, pos: TypePos) -> (r: Option<&Codec>)
        ensures
            pos.0 < self.spec_nodes().len() ==> r == match self.spec_nodes()[pos.0 as int] {
                Some(c) => Some(&c),
                None => None,
            },
            pos.0 >= self.spec_nodes().len() ==> r is None,
    {
        if (pos.0 as usize) < self.nodes.len() {
            match &self.nodes[pos.0 as usize] {
                Some(c) => Some(c),
                None => None,
            }
        } else {
            None
        }
    }
}

/// Decodes one scalar value at the cursor.
///
/// Both integer codecs ask for at least eight remaining bytes, though the
/// 32-bit codec consumes four of them.
pub fn decode_scalar(codec: &Codec, buf: &mut Cursor) -> (r: Result<Value, DecodeError>)
    requires
        old(buf).wf(),
        *codec is Int32 || *codec is Int64,
    ensures
        final(buf).wf(),
        final(buf).spec_data() == old(buf).spec_data(),
        r == spec_decode(*codec, old(buf).rest()),
        r is Ok ==> final(buf).spec_pos() == old(buf).spec_pos() + width(*codec),
        r is Err ==> final(buf).spec_pos() == old(buf).spec_pos(),
        r is Ok ==> final(buf).rest() == old(buf).rest().subrange(
            width(*codec) as int,
            old(buf).rest().len() as int,
        ),
        r is Err ==> final(buf).rest() == old(buf).rest(),
{
    if buf.remaining() < 8 {
        return Err(DecodeError::Underflow);
    }
    proof {
        lemma_pow256_facts();
    }
    match codec {
        Codec::Int32 => {
            proof {
                lemma_be_value_bound(buf.rest().subrange(0, 4));
            }
            let u = buf.read_be(4);
            Ok(Value::Scalar(Scalar::Int32(to_i32(u))))
        },
        _ => {
            let u = buf.read_be(8);
            Ok(Value::Scalar(Scalar::Int64(to_i64(u))))
        },
    }
}

/// Whether decoding `bytes` with the codec at `pos` of `nodes` gives `r`.
/// A scalar reads from the start of `bytes`; a composite splits `bytes` into
/// element payloads and decodes each present payload with its child codec.
/// A composite that fails with a child's failure has that failure from one of
/// its present payloads.
pub open spec fn decodes(
    nodes: Seq<Option<Codec>>,
    depths: Seq<usize>,
    pos: int,
    bytes: Seq<u8>,
    r: Result<Value, DecodeError>,
) -> bool
    decreases depths[pos],
{
    if pos < 0 || pos >= nodes.len() || nodes[pos] is None {
        false
    } else {
        let c = nodes[pos]->Some_0;
        let cs = codec_children(c);
        match c {
            Codec::Int32 => r == spec_decode(c, bytes),
            Codec::Int64 => r == spec_decode(c, bytes),
            _ => match spec_split_object(bytes, cs.len()) {
                Err(e) => r == Err::<Value, DecodeError>(e),
                Ok(ps) => match r {
                    Ok(v) => {
                        let fields = match v {
                            Value::Object { fields } => fields@,
                            Value::NamedTuple { fields } => fields@,
                            Value::Scalar(_) => Seq::empty(),
                        };
                        &&& (c is Object <==> v is Object)
                        &&& (c is NamedTuple <==> v is NamedTuple)
                        &&& fields.len() == cs.len()
                        &&& forall|i: int|
                            0 <= i < cs.len() ==> depths[cs[i] as int] < depths[pos] && match ps[i] {
                                None => fields[i] is None,
                                Some(b) => fields[i] is Some && decodes(
                                    nodes,
                                    depths,
                                    cs[i] as int,
                                    b,
                                    Ok(#[trigger] fields[i]->Some_0),
                                ),
                            }
                    },
                    Err(e) => exists|k: int|
                        #![trigger ps[k]]
                        0 <= k < cs.len() && ps[k] is Some && depths[cs[k] as int] < depths[pos] && decodes(
                            nodes,
                            depths,
                            cs[k] as int,
                            ps[k]->Some_0,
                            Err(e),
                        ),
                },
            },
        }
    }
}

proof fn lemma_decodes_failure(
    nodes: Seq<Option<Codec>>,
    depths: Seq<usize>,
    pos: int,
    bytes: Seq<u8>,
    e: DecodeError,
    k: int,
)
    requires
        0 <= pos < nodes.len(),
        nodes[pos] is Some,
        nodes[pos]->Some_0 is Object || nodes[pos]->Some_0 is NamedTuple,
        spec_split_object(bytes, codec_children(nodes[pos]->Some_0).len()) is Ok,
        ({
            let cs = codec_children(nodes[pos]->Some_0);
            let ps = spec_split_object(bytes, cs.len())->Ok_0;
            &&& 0 <= k < cs.len()
            &&& ps[k] is Some
            &&& depths[cs[k] as int] < depths[pos]
            &&& decodes(nodes, depths, cs[k] as int, ps[k]->Some_0, Err(e))
        }),
    ensures
        decodes(nodes, depths, pos, bytes, Err(e)),
{
}

proof fn lemma_decodes_success(
    nodes: Seq<Option<Codec>>,
    depths: Seq<usize>,
    pos: int,
    bytes: Seq<u8>,
    cs: Seq<u16>,
    ps: Seq<Option<Seq<u8>>>,
    fields: Seq<Option<Value>>,
    v: Value,
)
    requires
        0 <= pos < nodes.len(),
        nodes[pos] is Some,
        nodes[pos]->Some_0 is Object || nodes[pos]->Some_0 is NamedTuple,
        cs == codec_children(nodes[pos]->Some_0),
        spec_split_object(bytes, cs.len()) == Ok::<Seq<Option<Seq<u8>>>, DecodeError>(ps),
        (nodes[pos]->Some_0 is Object <==> v is Object),
        (nodes[pos]->Some_0 is NamedTuple <==> v is NamedTuple),
        fields == match v {
            Value::Object { fields } => fields@,
            Value::NamedTuple { fields } => fields@,
            Value::Scalar(_) => Seq::empty(),
        },
        fields.len() == cs.len(),
        forall|k: int|
            #![trigger fields[k]]
            0 <= k < cs.len() ==> depths[cs[k] as int] < depths[pos] && match ps[k] {
                None => fields[k] is None,
                Some(b) => fields[k] is Some && decodes(nodes, depths, cs[k] as int, b, Ok(fields[k]->Some_0)),
            },
    ensures
        decodes(nodes, depths, pos, bytes, Ok(v)),
{
}

impl CodecTree {
    /// Decodes a value of the root type from `bytes`.
    pub fn decode(&self, bytes: &[u8]) -> (r: Result<Value, DecodeError>)
        requires
            self.wf(),
        ensures
            decodes(self.spec_nodes(), self.spec_depths(), self.spec_root(), bytes@, r),
    {
        self.decode_at(self.root, bytes)
    }

    fn decode_at(&self, pos: u16, bytes: &[u8]) -> (r: Result<Value, DecodeError>)
        requires
            nodes_closed(self.spec_nodes(), self.spec_depths()),
            self.spec_depths().len() == self.spec_nodes().len(),
            pos < self.spec_nodes().len(),
            self.spec_nodes()[pos as int] is Some,
        ensures
            decodes(self.spec_nodes(), self.spec_depths(), pos as int, bytes@, r),
        decreases self.spec_depths()[pos as int],
    {
        let c = self.nodes[pos as usize].as_ref().unwrap();
        let ghost cs = codec_children(*c);
        match c {
            Codec::Int32 | Codec::Int64 => {
                let mut cur = Cursor::new(slice_to_vec(bytes));
                return decode_scalar(c, &mut cur);
            },
            _ => {},
        }
        let mut children: Vec<u16> = Vec::new();
        match c {
            Codec::Object(s) => {
                let mut j: usize = 0;
                while j < s.elements.len()
                    invariant
                        j <= s.elements@.len(),
                        children@ =~= Seq::new(j as nat, |i: int| s.elements@[i].codec.0),
                    decreases s.elements.len() - j,
                {
                    children.push(s.elements[j].codec.0);
                    j = j + 1;
                }
            },
            Codec::NamedTuple(t) => {
                let mut j: usize = 0;
                while j < t.elements.len()
                    invariant
                        j <= t.elements@.len(),
                        children@ =~= Seq::new(j as nat, |i: int| t.elements@[i].codec.0),
                    decreases t.elements.len() - j,
                {
                    children.push(t.elements[j].codec.0);
                    j = j + 1;
                }
            },
            _ => {},
        }
        assert(children@ =~= cs);
        let payloads = match split_object(bytes, children.len()) {
            Err(e) => {
                return Err(e);
            },
            Ok(p) => p,
        };
        proof {
            lemma_elements_len(bytes@, 4, cs.len());
        }
        let ghost ps = payloads_view(payloads@);
        let mut fields: Vec<Option<Value>> = Vec::new();
        let mut i: usize = 0;
        while i < children.len()
            invariant
                nodes_closed(self.spec_nodes(), self.spec_depths()),
                self.spec_depths().len() == self.spec_nodes().len(),
                pos < self.spec_nodes().len(),
                self.spec_nodes()[pos as int] == Some(*c),
                *c is Object || *c is NamedTuple,
                children@ == cs,
                cs == codec_children(*c),
                ps == payloads_view(payloads@),
                spec_split_object(bytes@, cs.len()) == Ok::<Seq<Option<Seq<u8>>>, DecodeError>(ps),
                ps.len() == cs.len(),
                payloads@.len() == cs.len(),
                fields@.len() == i,
                i <= cs.len(),
                forall|k: int|
                    #![trigger fields@[k]]
                    0 <= k < i ==> self.spec_depths()[cs[k] as int] < self.spec_depths()[pos as int] && match ps[k] {
                        None => fields@[k] is None,
                        Some(b) => fields@[k] is Some && decodes(
                            self.spec_nodes(),
                            self.spec_depths(),
                            cs[k] as int,
                            b,
                            Ok(fields@[k]->Some_0),
                        ),
                    },
            decreases cs.len() - i,
        {
            let child = children[i];
            assert(codec_children(self.spec_nodes()[pos as int]->Some_0)[i as int] == child);
            assert(child < self.spec_nodes().len() && self.spec_nodes()[child as int] is Some
                && self.spec_depths()[child as int] < self.spec_depths()[pos as int]);
            assert(ps[i as int] == payload_view(payloads@[i as int]));
            match &payloads[i] {
                None => {
                    fields.push(None);
                },
                Some(b) => {
                    match self.decode_at(child, b.as_slice()) {
                        Err(e) => {
                            proof {
                                assert(ps[i as int] == Some(b@));
                                lemma_decodes_failure(self.spec_nodes(), self.spec_depths(), pos as int, bytes@, e, i as int);
                            }
                            return Err(e);
                        },
                        Ok(v) => {
                            fields.push(Some(v));
                        },
                    }
                },
            }
            i = i + 1;
        }
        let ghost fs = fields@;
        let v = match c {
            Codec::Object(_) => Value::Object { fields },
            _ => Value::NamedTuple { fields },
        };
        proof {
            lemma_decodes_success(self.spec_nodes(), self.spec_depths(), pos as int, bytes@, cs, ps, fs, v);
        }
        Ok(v)
    }
}

/// The number of bytes a scalar codec consumes.
pub open spec fn width(c: Codec) -> nat {
    if c is Int32 {
        4
    } else {
        8
    }
}

/// What a scalar codec decodes from the bytes `rest`.
pub open spec fn spec_decode(c: Codec, rest: Seq<u8>) -> Result<Value, DecodeError> {
    if rest.len() < 8 {
        Err(DecodeError::Underflow)
    } else {
        if c is Int32 {
            Ok(Value::Scalar(Scalar::Int32(signed_of(be_value(rest.subrange(0, 4)), 4) as i32)))
        } else {
            Ok(Value::Scalar(Scalar::Int64(signed_of(be_value(rest.subrange(0, 8)), 8) as i64)))
        }
    }
}

/// The big-endian wire encoding of a scalar.
pub open spec fn encode_scalar(s: Scalar) -> Seq<u8> {
    match s {
        Scalar::Int32(v) => be_i32_bytes(v),
        Scalar::Int64(v) => be_i64_bytes(v),
    }
}

/// The identity of a scalar's type.
pub open spec fn scalar_id(s: Scalar) -> u128 {
    match s {
        Scalar::Int32(_) => STD_INT32,
        Scalar::Int64(_) => STD_INT64,
    }
}

/// Whenever the first descriptor in the table that carries a scalar type's
/// identity is a scalar descriptor, building a codec for that identity
/// succeeds, and the built codec decodes the encoding of any value of that
/// type back to the value. The bytes after the encoding, `tail`, make up at
/// least eight bytes in all: the 32-bit codec checks for eight.
pub proof fn law_build_then_decode_round_trip(
    descriptors: Seq<Descriptor>,
    s: Scalar,
    tail: Seq<u8>,
    tree: CodecTree,
)
    requires
        descriptors.len() <= u16::MAX as int + 1,
        has_id(descriptors, scalar_id(s)),
        descriptors[first_with_id(descriptors, scalar_id(s), 0)] is BaseScalar,
        encode_scalar(s).len() + tail.len() >= 8,
        tree.wf(),
        tree.spec_root() == first_with_id(descriptors, scalar_id(s), 0),
        memo_ok(descriptors, tree.spec_nodes(), tree.spec_depths()),
    ensures
        spec_build_codec(scalar_id(s), descriptors) is None,
        decodes(tree.spec_nodes(), tree.spec_depths(), tree.spec_root(), encode_scalar(s) + tail, Ok(Value::Scalar(s))),
{
    let root = scalar_id(s);
    lemma_first_with_id(descriptors, root, 0);
    let i = first_with_id(descriptors, root, 0);
    assert(i < descriptors.len());
    let node = tree.spec_nodes()[i]->Some_0;
    assert(node_matches(node, descriptors[i]));
    lemma_pow256_facts();
    match s {
        Scalar::Int32(v) => {
            let u = unsigned_of(v as int, 4);
            lemma_be_round_trip(u, 4);
            assert((encode_scalar(s) + tail).subrange(0, 4) =~= encode_scalar(s));
        },
        Scalar::Int64(v) => {
            let u = unsigned_of(v as int, 8);
            lemma_be_round_trip(u, 8);
            assert((encode_scalar(s) + tail).subrange(0, 8) =~= encode_scalar(s));
        },
    }
}

} // verus!
