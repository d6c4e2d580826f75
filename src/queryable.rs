//! Binding of a declared record type to a live object shape: validation of
//! the shape once, then decoding of rows of that shape.
use vstd::prelude::*;
use vstd::slice::{slice_subrange, slice_to_vec};
use crate::codec::{STD_INT32, STD_INT64, STD_JSON};
use crate::cursor::{be_value, signed_of, read_be_at, to_i32, to_i64, lemma_be_value_bound, lemma_pow256_facts};
use crate::descriptors::{Descriptor, ShapeElementDescriptor, TypePos};
use crate::errors::{DecodeError, DescriptorMismatch, ImplicitElement, MismatchView, WireType};
use crate::json::{json_i32_of, json_i64_of, parse_json_i32, parse_json_i64};

verus! {

/// The type a record field is declared with.
#[derive(Debug, Clone, Copy, PartialEq, Eq, Structural)]
pub enum FieldType {
    Int32,
    Int64,
}

/// A declared field: its name, its type, whether it travels as JSON text,
/// and whether it may be absent.
#[derive(Debug, Clone)]
pub struct FieldDecl {
    pub name: String,
    pub ty: FieldType,
    pub json: bool,
    pub optional: bool,
}

/// A decoded field value.
#[derive(Debug, Clone, Copy, PartialEq, Eq, Structural)]
pub enum FieldValue {
    Null,
    Int32(i32),
    Int64(i64),
}

/// A decoded record: one value per declared field, in declaration order.
#[derive(Debug, Clone)]
pub struct Record {
    pub fields: Vec<FieldValue>,
}

/// What validation looks up: the descriptor table and which implicit
/// elements the protocol negotiation puts in front of each object.
#[derive(Debug, Clone)]
pub struct DescriptorContext {
    pub descriptors: Vec<Descriptor>,
    pub has_implicit_tid: bool,
    pub has_implicit_tname: bool,
}

/// What row decoding needs to know of the negotiated protocol.
#[derive(Debug, Clone, Copy, PartialEq, Eq, Structural)]
pub struct Decoder {
    pub has_implicit_tid: bool,
    pub has_implicit_tname: bool,
}

/// A declared record type: its fields in declaration order.
#[derive(Debug, Clone)]
pub struct RecordBinding {
    fields: Vec<FieldDecl>,
    has_id: bool,
}

/// Whether a field named `id` is among `fields`.
pub open spec fn declares_id(fields: Seq<FieldDecl>) -> bool {
    exists|i: int| 0 <= i < fields.len() && #[trigger] fields[i].name@ == seq!['i', 'd']
}

/// The implicit elements that precede the declared fields, in order.
pub open spec fn implicit_slots(tid: bool, tname: bool, has_id: bool) -> Seq<ImplicitElement> {
    (if tid { seq![ImplicitElement::TypeId] } else { Seq::empty() }) + (if tname {
        seq![ImplicitElement::TypeName]
    } else {
        Seq::empty()
    }) + (if has_id { Seq::empty() } else { seq![ImplicitElement::Id] })
}

/// The scalar identity a field validates against.
pub open spec fn expected_scalar(ty: FieldType, json: bool) -> u128 {
    if json {
        STD_JSON
    } else {
        match ty {
            FieldType::Int32 => STD_INT32,
            FieldType::Int64 => STD_INT64,
        }
    }
}

/// The kind of descriptor a field validates against.
pub open spec fn expected_wire_type(ty: FieldType, json: bool) -> WireType {
    if json {
        WireType::Json
    } else {
        match ty {
            FieldType::Int32 => WireType::Int32,
            FieldType::Int64 => WireType::Int64,
        }
    }
}

/// Validation of one field's type against the descriptor at `pos`.
pub open spec fn spec_check_field(
    descriptors: Seq<Descriptor>,
    ty: FieldType,
    json: bool,
    pos: TypePos,
) -> Result<(), MismatchView> {
    if pos.0 as int >= descriptors.len() {
        Err(MismatchView::InvalidTypePos { position: pos.0 })
    } else {
        match descriptors[pos.0 as int] {
            Descriptor::BaseScalar(b) => if b.id == expected_scalar(ty, json) {
                Ok(())
            } else {
                Err(MismatchView::WrongType { position: pos.0, expected: expected_wire_type(ty, json) })
            },
            _ => Err(MismatchView::WrongType { position: pos.0, expected: expected_wire_type(ty, json) }),
        }
    }
}

/// Validation of the shape elements `els` from index `i` on, where the
/// implicit elements `imp` come first and the declared `fields` follow.
pub open spec fn spec_validate_from(
    descriptors: Seq<Descriptor>,
    fields: Seq<FieldDecl>,
    imp: Seq<ImplicitElement>,
    els: Seq<ShapeElementDescriptor>,
    i: int,
) -> Result<(), MismatchView>
    decreases imp.len() + fields.len() - i,
{
    let n = imp.len() + fields.len() as int;
    if i >= n {
        if els.len() == n {
            Ok(())
        } else {
            Err(MismatchView::FieldNumber { expected: els.len() as int, unexpected: n as int })
        }
    } else if i >= els.len() {
        Err(MismatchView::FieldNumber { expected: els.len() as int, unexpected: n as int })
    } else if i < imp.len() {
        if els[i].flag_implicit {
            spec_validate_from(descriptors, fields, imp, els, i + 1)
        } else {
            Err(MismatchView::Expected { expected: imp[i] })
        }
    } else {
        let f = fields[i - imp.len()];
        if els[i].name@ != f.name@ {
            Err(MismatchView::WrongField { expected: f.name@, unexpected: els[i].name@ })
        } else {
            match spec_check_field(descriptors, f.ty, f.json, els[i].type_pos) {
                Err(e) => Err(e),
                Ok(_) => spec_validate_from(descriptors, fields, imp, els, i + 1),
            }
        }
    }
}

/// The view of a validation result.
pub open spec fn mismatch_result(r: Result<(), DescriptorMismatch>) -> Result<(), MismatchView> {
    match r {
        Ok(_) => Ok(()),
        Err(e) => Err(e@),
    }
}

impl RecordBinding {
    pub closed spec fn spec_fields(&self) -> Seq<FieldDecl> {
        self.fields@
    }

    pub closed spec fn wf(&self) -> bool {
        &&& self.fields@.len() <= usize::MAX - 3
        &&& self.has_id == declares_id(self.fields@)
    }

    /// Whether the record declares its own `id` field.
    pub open spec fn spec_has_id(&self) -> bool {
        declares_id(self.spec_fields())
    }

    /// The result of validating the shape at `type_pos` in `ctx`.
    pub open spec fn spec_check_descriptor(&self, ctx: DescriptorContext, type_pos: TypePos) -> Result<
        (),
        MismatchView,
    > {
        let descriptors = ctx.descriptors@;
        if type_pos.0 as int >= descriptors.len() {
            Err(MismatchView::InvalidTypePos { position: type_pos.0 })
        } else {
            match descriptors[type_pos.0 as int] {
                Descriptor::ObjectShape(shape) => spec_validate_from(
                    descriptors,
                    self.spec_fields(),
                    implicit_slots(ctx.has_implicit_tid, ctx.has_implicit_tname, self.spec_has_id()),
                    shape.elements@,
                    0,
                ),
                _ => Err(MismatchView::WrongType { position: type_pos.0, expected: WireType::Object }),
            }
        }
    }

    /// Declares a record type with `fields` in declaration order.
    pub fn new(fields: Vec<FieldDecl>) -> (r: RecordBinding)
        requires
            fields@.len() <= usize::MAX - 3,
        ensures
            r.wf(),
            r.spec_fields() == fields@,
    {
        let id = "id".to_owned();
        proof {
            reveal_strlit("id");
        }
        let mut has_id = false;
        let mut i: usize = 0;
        while i < fields.len()
            invariant
                i <= fields@.len(),
                id@ == seq!['i', 'd'],
                has_id == exists|j: int| 0 <= j < i && #[trigger] fields@[j].name@ == seq!['i', 'd'],
            decreases fields.len() - i,
        {
            if fields[i].name == id {
                has_id = true;
            }
            i = i + 1;
        }
        RecordBinding { fields, has_id }
    }

    pub fn fields(&self) -> (r: &Vec<FieldDecl>)
        ensures
            r@ == self.spec_fields(),
    {
        &self.fields
    }

    pub fn has_id(&self) -> (r: bool)
        requires
            self.wf(),
        ensures
            r == self.spec_has_id(),
    {
        self.has_id
    }

    /// The implicit elements that precede the declared fields.
    fn implicit_elements(&self, tid: bool, tname: bool) -> (r: Vec<ImplicitElement>)
        requires
            self.wf(),
        ensures
            r@ == implicit_slots(tid, tname, self.spec_has_id()),
    {
        let mut r: Vec<ImplicitElement> = Vec::new();
        if tid {
            r.push(ImplicitElement::TypeId);
        }
        if tname {
            r.push(ImplicitElement::TypeName);
        }
        if !self.has_id {
            r.push(ImplicitElement::Id);
        }
        assert(r@ =~= implicit_slots(tid, tname, self.spec_has_id()));
        r
    }

    /// Checks once that the object shape at `type_pos` matches the declared
    /// fields, so that rows of that shape can then be decoded.
    pub fn check_descriptor(&self, ctx: &DescriptorContext, type_pos: TypePos) -> (r: Result<
        (),
        DescriptorMismatch,
    >)
        requires
            self.wf(),
        ensures
            mismatch_result(r) == self.spec_check_descriptor(*ctx, type_pos),
    {
        if type_pos.0 as usize >= ctx.descriptors.len() {
            return Err(DescriptorMismatch::InvalidTypePos { position: type_pos.0 });
        }
        let shape = match &ctx.descriptors[type_pos.0 as usize] {
            Descriptor::ObjectShape(shape) => shape,
            _ => {
                return Err(
                    DescriptorMismatch::WrongType { position: type_pos.0, expected: WireType::Object },
                );
            },
        };
        let els = &shape.elements;
        let imp = self.implicit_elements(ctx.has_implicit_tid, ctx.has_implicit_tname);
        let n = imp.len() + self.fields.len();
        let ghost goal = self.spec_check_descriptor(*ctx, type_pos);
        let mut idx: usize = 0;
        while idx < n
            invariant
                self.wf(),
                n == imp@.len() + self.fields@.len(),
                imp@ == implicit_slots(ctx.has_implicit_tid, ctx.has_implicit_tname, self.spec_has_id()),
                idx <= n,
                goal == self.spec_check_descriptor(*ctx, type_pos),
                goal == spec_validate_from(ctx.descriptors@, self.fields@, imp@, els@, idx as int),
            decreases n - idx,
        {
            if idx >= els.len() {
                return Err(DescriptorMismatch::FieldNumber { expected: els.len(), unexpected: n });
            }
            let el = &els[idx];
            if idx < imp.len() {
                if !el.flag_implicit {
                    return Err(DescriptorMismatch::Expected { expected: imp[idx] });
                }
            } else {
                let f = &self.fields[idx - imp.len()];
                if el.name != f.name {
                    return Err(
                        DescriptorMismatch::WrongField {
                            expected: f.name.clone(),
                            unexpected: el.name.clone(),
                        },
                    );
                }
                match check_field_descriptor(ctx, f, el.type_pos) {
                    Err(e) => {
                        return Err(e);
                    },
                    Ok(()) => {},
                }
            }
            idx = idx + 1;
        }
        if els.len() != n {
            return Err(DescriptorMismatch::FieldNumber { expected: els.len(), unexpected: n });
        }
        Ok(())
    }
}

/// Checks a field's declared type against the descriptor at `pos`; a JSON
/// field checks against the JSON scalar instead.
pub fn check_field_descriptor(ctx: &DescriptorContext, field: &FieldDecl, pos: TypePos) -> (r: Result<
    (),
    DescriptorMismatch,
>)
    ensures
        mismatch_result(r) == spec_check_field(ctx.descriptors@, field.ty, field.json, pos),
{
    let expected = if field.json {
        WireType::Json
    } else {
        match field.ty {
            FieldType::Int32 => WireType::Int32,
            FieldType::Int64 => WireType::Int64,
        }
    };
    let id = if field.json {
        STD_JSON
    } else {
        match field.ty {
            FieldType::Int32 => STD_INT32,
            FieldType::Int64 => STD_INT64,
        }
    };
    if pos.0 as usize >= ctx.descriptors.len() {
        return Err(DescriptorMismatch::InvalidTypePos { position: pos.0 });
    }
    match &ctx.descriptors[pos.0 as usize] {
        Descriptor::BaseScalar(b) => {
            if b.id == id {
                Ok(())
            } else {
                Err(DescriptorMismatch::WrongType { position: pos.0, expected })
            }
        },
        _ => Err(DescriptorMismatch::WrongType { position: pos.0, expected }),
    }
}

/// The element at `pos`: a 4-byte signed length (`-1` for an absent
/// element) followed by that many payload bytes; and where the next begins.
pub open spec fn spec_element(buf: Seq<u8>, pos: int) -> Result<(Option<Seq<u8>>, int), DecodeError> {
    if pos + 4 > buf.len() {
        Err(DecodeError::Underflow)
    } else {
        let l = signed_of(be_value(buf.subrange(pos, pos + 4)), 4);
        if l == -1 {
            Ok((None, pos + 4))
        } else if l < 0 {
            Err(DecodeError::InvalidElementLength)
        } else if pos + 4 + l > buf.len() {
            Err(DecodeError::Underflow)
        } else {
            Ok((Some(buf.subrange(pos + 4, pos + 4 + l)), pos + 4 + l))
        }
    }
}

/// `acc` followed by the sequence in `r`, or the error in `r`.
pub open spec fn prepend<T>(acc: Seq<T>, r: Result<Seq<T>, DecodeError>) -> Result<Seq<T>, DecodeError> {
    match r {
        Ok(rest) => Ok(acc + rest),
        Err(e) => Err(e),
    }
}

/// The payloads of `k` consecutive elements starting at `pos`.
pub open spec fn spec_elements_from(buf: Seq<u8>, pos: int, k: nat) -> Result<
    Seq<Option<Seq<u8>>>,
    DecodeError,
>
    decreases k,
{
    if k == 0 {
        Ok(Seq::empty())
    } else {
        match spec_element(buf, pos) {
            Err(e) => Err(e),
            Ok((p, next)) => prepend(seq![p], spec_elements_from(buf, next, (k - 1) as nat)),
        }
    }
}

pub proof fn lemma_elements_len(buf: Seq<u8>, pos: int, k: nat)
    ensures
        spec_elements_from(buf, pos, k) is Ok ==> spec_elements_from(buf, pos, k)->Ok_0.len() == k,
    decreases k,
{
    if k > 0 {
        if let Ok((p, next)) = spec_element(buf, pos) {
            lemma_elements_len(buf, next, (k - 1) as nat);
        }
    }
}

/// The element payloads of an object encoding that must hold `n` elements:
/// a 4-byte element count, then the elements.
pub open spec fn spec_split_object(buf: Seq<u8>, n: nat) -> Result<Seq<Option<Seq<u8>>>, DecodeError> {
    if buf.len() < 4 {
        Err(DecodeError::Underflow)
    } else if be_value(buf.subrange(0, 4)) != n {
        Err(DecodeError::ObjectSizeMismatch)
    } else {
        spec_elements_from(buf, 4, n)
    }
}

/// The value of a field of type `ty` decoded from its payload `p`.
pub open spec fn spec_decode_field(ty: FieldType, json: bool, optional: bool, p: Option<Seq<u8>>) -> Result<
    FieldValue,
    DecodeError,
> {
    match p {
        None => if optional {
            Ok(FieldValue::Null)
        } else {
            Err(DecodeError::MissingRequiredElement)
        },
        Some(b) => if json {
            match ty {
                FieldType::Int32 => match json_i32_of(b) {
                    Some(v) => Ok(FieldValue::Int32(v)),
                    None => Err(DecodeError::InvalidJson),
                },
                FieldType::Int64 => match json_i64_of(b) {
                    Some(v) => Ok(FieldValue::Int64(v)),
                    None => Err(DecodeError::InvalidJson),
                },
            }
        } else {
            let w = match ty {
                FieldType::Int32 => 4int,
                FieldType::Int64 => 8int,
            };
            if b.len() < w {
                Err(DecodeError::Underflow)
            } else if b.len() > w {
                Err(DecodeError::ExtraData)
            } else {
                match ty {
                    FieldType::Int32 => Ok(FieldValue::Int32(signed_of(be_value(b), 4) as i32)),
                    FieldType::Int64 => Ok(FieldValue::Int64(signed_of(be_value(b), 8) as i64)),
                }
            }
        }
    }
}

/// The values of `fields` from index `j` on, decoded from their payloads;
/// the first failure in declaration order wins.
pub open spec fn spec_fields_from(fields: Seq<FieldDecl>, payloads: Seq<Option<Seq<u8>>>, j: int) -> Result<
    Seq<FieldValue>,
    DecodeError,
>
    decreases fields.len() - j,
{
    if j >= fields.len() {
        Ok(Seq::empty())
    } else {
        let f = fields[j];
        match spec_decode_field(f.ty, f.json, f.optional, payloads[j]) {
            Err(e) => Err(e),
            Ok(v) => prepend(seq![v], spec_fields_from(fields, payloads, j + 1)),
        }
    }
}

/// The view of an optional payload.
pub open spec fn payload_view(p: Option<Vec<u8>>) -> Option<Seq<u8>> {
    match p {
        Some(v) => Some(v@),
        None => None,
    }
}

/// The view of a sequence of optional payloads.
pub open spec fn payloads_view(v: Seq<Option<Vec<u8>>>) -> Seq<Option<Seq<u8>>> {
    v.map_values(|p: Option<Vec<u8>>| payload_view(p))
}

/// The view of a framing result.
pub open spec fn split_result(r: Result<Vec<Option<Vec<u8>>>, DecodeError>) -> Result<
    Seq<Option<Seq<u8>>>,
    DecodeError,
> {
    match r {
        Ok(v) => Ok(payloads_view(v@)),
        Err(e) => Err(e),
    }
}

/// The view of a record decoding result.
pub open spec fn record_result(r: Result<Record, DecodeError>) -> Result<Seq<FieldValue>, DecodeError> {
    match r {
        Ok(rec) => Ok(rec.fields@),
        Err(e) => Err(e),
    }
}

/// Splits an object encoding that must hold `n` elements into the payloads
/// of its elements, in order.
pub fn split_object(buf: &[u8], n: usize) -> (r: Result<Vec<Option<Vec<u8>>>, DecodeError>)
    ensures
        split_result(r) == spec_split_object(buf@, n as nat),
{
    let len = buf.len();
    if len < 4 {
        return Err(DecodeError::Underflow);
    }
    let count = read_be_at(buf, 0, 4);
    if count != n as u64 {
        return Err(DecodeError::ObjectSizeMismatch);
    }
    let mut acc: Vec<Option<Vec<u8>>> = Vec::new();
    let mut pos: usize = 4;
    let mut i: usize = 0;
    proof {
        lemma_pow256_facts();
        assert(payloads_view(acc@) =~= Seq::empty());
        assert(Seq::<Option<Seq<u8>>>::empty() + spec_elements_from(buf@, 4, n as nat)->Ok_0
            =~= spec_elements_from(buf@, 4, n as nat)->Ok_0);
    }
    while i < n
        invariant
            len == buf@.len(),
            4 <= pos <= len,
            i <= n,
            spec_split_object(buf@, n as nat) == prepend(
                payloads_view(acc@),
                spec_elements_from(buf@, pos as int, (n - i) as nat),
            ),
        decreases n - i,
    {
        if len - pos < 4 {
            return Err(DecodeError::Underflow);
        }
        proof {
            lemma_be_value_bound(buf@.subrange(pos as int, pos + 4));
            lemma_pow256_facts();
        }
        let l = to_i32(read_be_at(buf, pos, 4));
        let ghost before = payloads_view(acc@);
        if l == -1 {
            acc.push(None);
            pos = pos + 4;
        } else if l < 0 {
            return Err(DecodeError::InvalidElementLength);
        } else if l as usize > len - pos - 4 {
            return Err(DecodeError::Underflow);
        } else {
            let end = pos + 4 + l as usize;
            let payload = slice_to_vec(slice_subrange(buf, pos + 4, end));
            acc.push(Some(payload));
            pos = end;
        }
        proof {
            let p = acc@.last();
            assert(payloads_view(acc@) =~= before.push(payload_view(p)));
            assert forall|rest: Seq<Option<Seq<u8>>>|
                #[trigger] (before + (seq![payload_view(p)] + rest)) == payloads_view(acc@) + rest by {
                assert((before + (seq![payload_view(p)] + rest)) =~= payloads_view(acc@) + rest);
            }
        }
        i = i + 1;
    }
    proof {
        assert(payloads_view(acc@) + Seq::<Option<Seq<u8>>>::empty() =~= payloads_view(acc@));
    }
    Ok(acc)
}

/// Decodes one field from its payload; `None` stands for an absent element.
pub fn decode_field(field: &FieldDecl, payload: Option<&[u8]>) -> (r: Result<FieldValue, DecodeError>)
    ensures
        r == spec_decode_field(
            field.ty,
            field.json,
            field.optional,
            match payload {
                Some(b) => Some(b@),
                None => None,
            },
        ),
{
    let b = match payload {
        None => {
            if field.optional {
                return Ok(FieldValue::Null);
            } else {
                return Err(DecodeError::MissingRequiredElement);
            }
        },
        Some(b) => b,
    };
    if field.json {
        match field.ty {
            FieldType::Int32 => match parse_json_i32(b) {
                Ok(v) => Ok(FieldValue::Int32(v)),
                Err(_) => Err(DecodeError::InvalidJson),
            },
            FieldType::Int64 => match parse_json_i64(b) {
                Ok(v) => Ok(FieldValue::Int64(v)),
                Err(_) => Err(DecodeError::InvalidJson),
            },
        }
    } else {
        let w: usize = match field.ty {
            FieldType::Int32 => 4,
            FieldType::Int64 => 8,
        };
        if b.len() < w {
            return Err(DecodeError::Underflow);
        }
        if b.len() > w {
            return Err(DecodeError::ExtraData);
        }
        proof {
            assert(b@.subrange(0, w as int) =~= b@);
            lemma_be_value_bound(b@);
            lemma_pow256_facts();
        }
        let u = read_be_at(b, 0, w);
        match field.ty {
            FieldType::Int32 => Ok(FieldValue::Int32(to_i32(u))),
            FieldType::Int64 => Ok(FieldValue::Int64(to_i64(u))),
        }
    }
}

impl RecordBinding {
    /// The number of elements a row holds under the negotiated protocol.
    pub open spec fn spec_element_count(&self, tid: bool, tname: bool) -> nat {
        implicit_slots(tid, tname, self.spec_has_id()).len() + self.spec_fields().len()
    }

    /// The result of decoding the row `buf`.
    pub open spec fn spec_decode(&self, decoder: Decoder, buf: Seq<u8>) -> Result<Seq<FieldValue>, DecodeError> {
        let k = implicit_slots(decoder.has_implicit_tid, decoder.has_implicit_tname, self.spec_has_id()).len();
        let n = self.spec_element_count(decoder.has_implicit_tid, decoder.has_implicit_tname);
        match spec_split_object(buf, n) {
            Err(e) => Err(e),
            Ok(payloads) => spec_fields_from(self.spec_fields(), payloads.subrange(k as int, n as int), 0),
        }
    }

    /// Decodes one row of a shape that `check_descriptor` accepted: skips the
    /// implicit elements and decodes each declared field in order.
    pub fn decode(&self, decoder: &Decoder, buf: &[u8]) -> (r: Result<Record, DecodeError>)
        requires
            self.wf(),
        ensures
            record_result(r) == self.spec_decode(*decoder, buf@),
    {
        let imp = self.implicit_elements(decoder.has_implicit_tid, decoder.has_implicit_tname);
        let k = imp.len();
        let n = k + self.fields.len();
        let payloads = match split_object(buf, n) {
            Err(e) => {
                return Err(e);
            },
            Ok(p) => p,
        };
        proof {
            lemma_elements_len(buf@, 4, n as nat);
            assert(payloads_view(payloads@).len() == payloads@.len());
        }
        let ghost ps = payloads_view(payloads@).subrange(k as int, n as int);
        let ghost goal = self.spec_decode(*decoder, buf@);
        let mut values: Vec<FieldValue> = Vec::new();
        let mut j: usize = 0;
        proof {
            assert(Seq::<FieldValue>::empty() + spec_fields_from(self.fields@, ps, 0)->Ok_0
                =~= spec_fields_from(self.fields@, ps, 0)->Ok_0);
        }
        while j < self.fields.len()
            invariant
                self.wf(),
                n == k + self.fields@.len(),
                payloads@.len() == n,
                ps == payloads_view(payloads@).subrange(k as int, n as int),
                j <= self.fields@.len(),
                goal == self.spec_decode(*decoder, buf@),
                goal == prepend(values@, spec_fields_from(self.fields@, ps, j as int)),
            decreases self.fields.len() - j,
        {
            let p = match &payloads[k + j] {
                Some(v) => Some(v.as_slice()),
                None => None,
            };
            assert(ps[j as int] == payload_view(payloads@[k + j]));
            let v = match decode_field(&self.fields[j], p) {
                Err(e) => {
                    return Err(e);
                },
                Ok(v) => v,
            };
            let ghost before = values@;
            values.push(v);
            proof {
                assert forall|rest: Seq<FieldValue>|
                    #[trigger] (before + (seq![v] + rest)) == values@ + rest by {
                    assert((before + (seq![v] + rest)) =~= values@ + rest);
                }
            }
            j = j + 1;
        }
        proof {
            assert(values@ + Seq::<FieldValue>::empty() =~= values@);
        }
        Ok(Record { fields: values })
    }
}

pub proof fn lemma_fields_from(fields: Seq<FieldDecl>, payloads: Seq<Option<Seq<u8>>>, j: int)
    requires
        0 <= j <= fields.len(),
        spec_fields_from(fields, payloads, j) is Ok,
    ensures
        spec_fields_from(fields, payloads, j)->Ok_0.len() == fields.len() - j,
        forall|t: int|
            j <= t < fields.len() ==> Ok::<FieldValue, DecodeError>(
                #[trigger] spec_fields_from(fields, payloads, j)->Ok_0[t - j],
            ) == spec_decode_field(fields[t].ty, fields[t].json, fields[t].optional, payloads[t]),
    decreases fields.len() - j,
{
    if j < fields.len() {
        lemma_fields_from(fields, payloads, j + 1);
        let all = spec_fields_from(fields, payloads, j)->Ok_0;
        let rest = spec_fields_from(fields, payloads, j + 1)->Ok_0;
        assert forall|t: int| j < t < fields.len() implies #[trigger] all[t - j] == rest[t - (j + 1)] by {}
    }
}

/// A row that decodes yields exactly one value per declared field, and each
/// equals what decoding that field's own element payload alone gives; the
/// implicit elements in front are consumed and surface nowhere.
pub proof fn law_decode_is_fieldwise(binding: RecordBinding, decoder: Decoder, buf: Seq<u8>)
    requires
        binding.wf(),
        binding.spec_decode(decoder, buf) is Ok,
    ensures
        ({
            let k = implicit_slots(
                decoder.has_implicit_tid,
                decoder.has_implicit_tname,
                binding.spec_has_id(),
            ).len();
            let n = binding.spec_element_count(decoder.has_implicit_tid, decoder.has_implicit_tname);
            let payloads = spec_split_object(buf, n)->Ok_0;
            let values = binding.spec_decode(decoder, buf)->Ok_0;
            let fields = binding.spec_fields();
            &&& spec_split_object(buf, n) is Ok
            &&& payloads.len() == n
            &&& values.len() == fields.len()
            &&& forall|j: int|
                0 <= j < fields.len() ==> Ok::<FieldValue, DecodeError>(#[trigger] values[j])
                    == spec_decode_field(fields[j].ty, fields[j].json, fields[j].optional, payloads[k + j])
        }),
{
    let k = implicit_slots(decoder.has_implicit_tid, decoder.has_implicit_tname, binding.spec_has_id()).len();
    let n = binding.spec_element_count(decoder.has_implicit_tid, decoder.has_implicit_tname);
    lemma_elements_len(buf, 4, n);
    let payloads = spec_split_object(buf, n)->Ok_0;
    let ps = payloads.subrange(k as int, n as int);
    lemma_fields_from(binding.spec_fields(), ps, 0);
    let values = binding.spec_decode(decoder, buf)->Ok_0;
    assert(values == spec_fields_from(binding.spec_fields(), ps, 0)->Ok_0);
    assert forall|j: int| 0 <= j < binding.spec_fields().len() implies Ok::<FieldValue, DecodeError>(
        #[trigger] values[j],
    ) == spec_decode_field(
        binding.spec_fields()[j].ty,
        binding.spec_fields()[j].json,
        binding.spec_fields()[j].optional,
        payloads[k + j],
    ) by {
        assert(ps[j] == payloads[k + j]);
        assert(values[j - 0] == values[j]);
    }
}

/// A field that travels as JSON fails with the JSON failure whenever its
/// payload is not JSON text of the field's type.
pub proof fn law_malformed_json_fails(ty: FieldType, optional: bool, b: Seq<u8>)
    requires
        match ty {
            FieldType::Int32 => json_i32_of(b) is None,
            FieldType::Int64 => json_i64_of(b) is None,
        },
    ensures
        spec_decode_field(ty, true, optional, Some(b)) == Err::<FieldValue, DecodeError>(
            DecodeError::InvalidJson,
        ),
{
}

} // verus!
