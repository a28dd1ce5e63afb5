use vstd::prelude::*;

use crate::reader::{read_span, MemReader};
use crate::shaped::value_at;
use crate::pointer::Pointer;

verus! {

/// The runtime-reflection capability: class-by-name lookup inside the
/// target's loaded image, and static-field-address / field-offset lookup
/// inside a class. A lookup that fails now may succeed later (the target may
/// still be loading), so results are a function of the implementor's current
/// model, which lookups never change; the invocation count is part of the
/// model so that callers can state how much a binding's caches save.
pub trait Reflection: Sized {
    /// The handle the class with this name resolves to, if any.
    spec fn class_of(&self, name: Seq<char>) -> Option<u64>;

    /// The absolute address a static field of `class` resolves to, if any.
    spec fn static_field_of(&self, class: u64, name: Seq<char>) -> Option<u64>;

    /// The instance-field byte offset a field of `class` resolves to, if any.
    spec fn field_offset_of(&self, class: u64, name: Seq<char>) -> Option<u32>;

    /// How many lookups have been performed.
    spec fn lookups(&self) -> nat;

    /// Looks up a class by name.
    fn get_class(&mut self, name: &str) -> (r: Option<u64>)
        ensures
            r == old(self).class_of(name@),
            final (self).lookups() == old(self).lookups() + 1,
            forall|n: Seq<char>| #[trigger] final (self).class_of(n) == old(self).class_of(n),
            forall|c: u64, n: Seq<char>| #[trigger]
                final (self).static_field_of(c, n) == old(self).static_field_of(c, n),
            forall|c: u64, n: Seq<char>| #[trigger]
                final (self).field_offset_of(c, n) == old(self).field_offset_of(c, n),
    ;

    /// Looks up the absolute address of a static field.
    fn get_static_field(&mut self, class: u64, name: &str) -> (r: Option<u64>)
        ensures
            r == old(self).static_field_of(class, name@),
            final (self).lookups() == old(self).lookups() + 1,
            forall|n: Seq<char>| #[trigger] final (self).class_of(n) == old(self).class_of(n),
            forall|c: u64, n: Seq<char>| #[trigger]
                final (self).static_field_of(c, n) == old(self).static_field_of(c, n),
            forall|c: u64, n: Seq<char>| #[trigger]
                final (self).field_offset_of(c, n) == old(self).field_offset_of(c, n),
    ;

    /// Looks up the byte offset of an instance field.
    fn get_field_offset(&mut self, class: u64, name: &str) -> (r: Option<u32>)
        ensures
            r == old(self).field_offset_of(class, name@),
            final (self).lookups() == old(self).lookups() + 1,
            forall|n: Seq<char>| #[trigger] final (self).class_of(n) == old(self).class_of(n),
            forall|c: u64, n: Seq<char>| #[trigger]
                final (self).static_field_of(c, n) == old(self).static_field_of(c, n),
            forall|c: u64, n: Seq<char>| #[trigger]
                final (self).field_offset_of(c, n) == old(self).field_offset_of(c, n),
    ;
}

/// One field of a class description. A field is plain (instance,
/// offset-based), static (class-level, absolute address), or singleton: a
/// static field whose dereferenced value serves as the implicit instance for
/// all plain fields of the same class.
#[derive(Clone, Debug)]
pub struct FieldDesc {
    /// The name the field is looked up under in the target class.
    pub name: String,
    /// Class-level: resolves to an absolute address.
    pub is_static: bool,
    /// The implicit instance holder; implied static, so marking both is
    /// rejected at generation time.
    pub is_singleton: bool,
    /// The number of bytes one value of the field occupies.
    pub width: usize,
}

/// A class description: the name the class is looked up under and its
/// fields.
#[derive(Clone, Debug)]
pub struct ClassDesc {
    pub name: String,
    pub fields: Vec<FieldDesc>,
}

/// A generation-time rejection of a class description.
#[derive(Clone, Copy, Debug, PartialEq, Eq, Structural)]
pub enum GenError {
    /// A field was marked both static and singleton; singleton fields are
    /// implied to be static, so both marks together are invalid.
    StaticSingleton,
    /// More than one field was marked singleton.
    MultipleSingletons,
    /// Static and plain fields were mixed in one class description; the fix
    /// is to split it into two descriptions.
    MixedFields,
}

/// The parameter shape of a binding's read operation, derived mechanically
/// from the validated field set.
#[derive(Clone, Copy, Debug, PartialEq, Eq, Structural)]
pub enum BindShape {
    /// Every field is static (or there are none): no instance parameter.
    AllStatic,
    /// A singleton field supplies the instance: no instance parameter.
    SingletonBacked,
    /// Plain fields without a singleton: an explicit instance is required.
    InstanceBacked,
}

/// The per-field scan of generation-time validation, from index `i` on,
/// with `seen` telling whether a singleton stood before `i`.
pub open spec fn scan_error(fields: Seq<FieldDesc>, i: int, seen: bool) -> Option<GenError>
    decreases fields.len() - i,
{
    if i < 0 || i >= fields.len() {
        None
    } else {
        let f = fields[i];
        if f.is_static && f.is_singleton {
            Some(GenError::StaticSingleton)
        } else if f.is_singleton && seen {
            Some(GenError::MultipleSingletons)
        } else {
            scan_error(fields, i + 1, seen || f.is_singleton)
        }
    }
}

/// Whether some field is static.
pub open spec fn has_static(fields: Seq<FieldDesc>) -> bool {
    exists|i: int| 0 <= i < fields.len() && (#[trigger] fields[i]).is_static
}

/// Whether some field is plain or singleton.
pub open spec fn has_instance(fields: Seq<FieldDesc>) -> bool {
    exists|i: int| 0 <= i < fields.len() && !(#[trigger] fields[i]).is_static
}

/// Whether some field is the singleton.
pub open spec fn has_singleton(fields: Seq<FieldDesc>) -> bool {
    exists|i: int| 0 <= i < fields.len() && (#[trigger] fields[i]).is_singleton
}

/// The generation-time verdict over a field list: the first per-field
/// offence in field order, else the mixing of static and plain fields.
pub open spec fn gen_error(fields: Seq<FieldDesc>) -> Option<GenError> {
    if scan_error(fields, 0, false) is Some {
        scan_error(fields, 0, false)
    } else if has_static(fields) && has_instance(fields) {
        Some(GenError::MixedFields)
    } else {
        None
    }
}

/// The read-parameter shape a validated field list generates.
pub open spec fn shape_of(fields: Seq<FieldDesc>) -> BindShape {
    if !has_instance(fields) {
        BindShape::AllStatic
    } else if has_singleton(fields) {
        BindShape::SingletonBacked
    } else {
        BindShape::InstanceBacked
    }
}

/// The index of the singleton field, where one exists.
pub open spec fn singleton_index(fields: Seq<FieldDesc>) -> int {
    choose|i: int| 0 <= i < fields.len() && (#[trigger] fields[i]).is_singleton
}

/// A passed scan leaves no offending field from `i` on.
proof fn lemma_scan_clean(fields: Seq<FieldDesc>, i: int, seen: bool)
    requires
        0 <= i <= fields.len(),
        scan_error(fields, i, seen) is None,
    ensures
        forall|j: int|
            i <= j < fields.len() ==> !((#[trigger] fields[j]).is_static && fields[j].is_singleton),
        forall|j: int, k: int|
            i <= j < k < fields.len() && (#[trigger] fields[j]).is_singleton ==> !(
            #[trigger] fields[k]).is_singleton,
        seen ==> forall|j: int| i <= j < fields.len() ==> !(#[trigger] fields[j]).is_singleton,
    decreases fields.len() - i,
{
    if i < fields.len() {
        lemma_scan_clean(fields, i + 1, seen || fields[i].is_singleton);
    }
}

/// Validation: a passed field list has at most one singleton.
pub proof fn lemma_singleton_unique(fields: Seq<FieldDesc>)
    requires
        gen_error(fields) is None,
    ensures
        forall|j: int, k: int|
            0 <= j < fields.len() && 0 <= k < fields.len() && (#[trigger] fields[j]).is_singleton
                && (#[trigger] fields[k]).is_singleton ==> j == k,
{
    lemma_scan_clean(fields, 0, false);
}

/// Validates a field list: the per-field offences in field order, then the
/// static/plain mixing check.
pub fn validate(fields: &Vec<FieldDesc>) -> (r: Result<BindShape, GenError>)
    ensures
        r == match gen_error(fields@) {
            Option::Some(e) => Err::<BindShape, GenError>(e),
            Option::None => Ok::<BindShape, GenError>(shape_of(fields@)),
        },
{
    let n = fields.len();
    let mut seen_singleton = false;
    let mut saw_static = false;
    let mut saw_instance = false;
    let mut i: usize = 0;
    while i < n
        invariant
            i <= n,
            n == fields@.len(),
            scan_error(fields@, 0, false) == scan_error(fields@, i as int, seen_singleton),
            seen_singleton == has_singleton(fields@.take(i as int)),
            saw_static == has_static(fields@.take(i as int)),
            saw_instance == has_instance(fields@.take(i as int)),
        decreases n - i,
    {
        let f = &fields[i];
        if f.is_static && f.is_singleton {
            return Err(GenError::StaticSingleton);
        }
        if f.is_singleton && seen_singleton {
            return Err(GenError::MultipleSingletons);
        }
        proof {
            assert(fields@.take(i + 1).drop_last() =~= fields@.take(i as int));
            assert(fields@.take(i + 1).last() == fields@[i as int]);
            lemma_flag_step(fields@, i as int, seen_singleton, saw_static, saw_instance);
        }
        seen_singleton = seen_singleton || f.is_singleton;
        saw_static = saw_static || f.is_static;
        saw_instance = saw_instance || !f.is_static;
        i += 1;
    }
    proof {
        assert(fields@.take(n as int) =~= fields@);
    }
    if saw_static && saw_instance {
        return Err(GenError::MixedFields);
    }
    if !saw_instance {
        Ok(BindShape::AllStatic)
    } else if seen_singleton {
        Ok(BindShape::SingletonBacked)
    } else {
        Ok(BindShape::InstanceBacked)
    }
}

/// Two reflection states answer every lookup alike.
pub open spec fn same_model<F: Reflection>(a: F, b: F) -> bool {
    &&& forall|n: Seq<char>| #[trigger] b.class_of(n) == a.class_of(n)
    &&& forall|c: u64, n: Seq<char>| #[trigger] b.static_field_of(c, n) == a.static_field_of(c, n)
    &&& forall|c: u64, n: Seq<char>| #[trigger] b.field_offset_of(c, n) == a.field_offset_of(c, n)
}

/// No plain field's cache slot holds the impossible offset zero.
pub open spec fn plain_slots_nonzero(b: ClassBinding) -> bool {
    forall|i: int|
        0 <= i < b.desc.fields@.len() && !(#[trigger] b.desc.fields@[i]).is_static
            && !b.desc.fields@[i].is_singleton ==> b.slots@[i] != Some(0u64)
}

/// A lazily resolved decoder for one class description: the class handle
/// and each field's address-or-offset are cached independently, `None` until
/// their first successful lookup and fixed afterwards, so a lookup that
/// fails is naturally retried on the next call.
#[derive(Debug)]
pub struct ClassBinding {
    pub desc: ClassDesc,
    pub shape: BindShape,
    pub class: Option<u64>,
    pub slots: Vec<Option<u64>>,
}

impl ClassBinding {
    /// Well-formedness: the description passed generation, the shape is the
    /// one it generates, one cache slot stands per field, and no plain
    /// field's cache holds the impossible offset zero.
    pub open spec fn wf(self) -> bool {
        &&& gen_error(self.desc.fields@) is None
        &&& self.shape == shape_of(self.desc.fields@)
        &&& self.slots@.len() == self.desc.fields@.len()
        &&& plain_slots_nonzero(self)
    }

    /// Generates the binding for a class description: validation errors are
    /// generation-time rejections; a validated description always yields a
    /// binding with empty caches, and no lookup or read is performed.
    pub fn bind(desc: ClassDesc) -> (r: Result<ClassBinding, GenError>)
        ensures
            match gen_error(desc.fields@) {
                Option::Some(e) => r == Err::<ClassBinding, GenError>(e),
                Option::None => r is Ok && ({
                    let b = r->Ok_0;
                    &&& b.desc == desc
                    &&& b.shape == shape_of(desc.fields@)
                    &&& b.class is None
                    &&& b.slots@.len() == desc.fields@.len()
                    &&& forall|i: int| 0 <= i < b.slots@.len() ==> b.slots@[i] is None
                    &&& b.wf()
                }),
            },
    {
        let shape = match validate(&desc.fields) {
            Ok(s) => s,
            Err(e) => {
                return Err(e);
            },
        };
        let n = desc.fields.len();
        let mut slots: Vec<Option<u64>> = Vec::new();
        let mut i: usize = 0;
        while i < n
            invariant
                i <= n,
                slots@.len() == i,
                forall|j: int| 0 <= j < i ==> slots@[j] is None,
            decreases n - i,
        {
            slots.push(None);
            i += 1;
        }
        Ok(ClassBinding { desc, shape, class: None, slots })
    }
}

/// The class handle a resolution uses: the cached one, else what the
/// reflection model answers for the description's name.
pub open spec fn resolved_class<F: Reflection>(b: ClassBinding, refl: F) -> Option<u64> {
    if b.class is Some {
        b.class
    } else {
        refl.class_of(b.desc.name@)
    }
}

/// The address-or-offset slot `i` resolves to: the cached value, else the
/// reflection model's answer — a static-field address for static and
/// singleton fields, a field offset for plain fields.
pub open spec fn slot_value<F: Reflection>(b: ClassBinding, refl: F, c: u64, i: int) -> Option<
    u64,
> {
    if b.slots@[i] is Some {
        b.slots@[i]
    } else {
        let f = b.desc.fields@[i];
        if f.is_static || f.is_singleton {
            refl.static_field_of(c, f.name@)
        } else {
            match refl.field_offset_of(c, f.name@) {
                Option::None => None,
                Option::Some(off) => Some(off as u64),
            }
        }
    }
}

/// Whether every slot resolves.
pub open spec fn all_slots_resolve<F: Reflection>(b: ClassBinding, refl: F, c: u64) -> bool {
    forall|i: int| 0 <= i < b.desc.fields@.len() ==> #[trigger] slot_value(b, refl, c, i) is Some
}

/// The reflection model never answers offset zero for a plain field of this
/// binding's class: a managed field never sits at offset zero, so zero marks
/// a failed lookup, and reading through it would silently decode the wrong
/// address.
pub open spec fn offsets_nonzero<F: Reflection>(b: ClassBinding, refl: F) -> bool {
    forall|i: int|
        0 <= i < b.desc.fields@.len() && !(#[trigger] b.desc.fields@[i]).is_static
            && !b.desc.fields@[i].is_singleton ==> (match resolved_class(b, refl) {
            Option::Some(c) => refl.field_offset_of(c, b.desc.fields@[i].name@) != Some(0u32),
            Option::None => true,
        })
}

/// The base address plain fields are read from: the caller's instance, or
/// the 8-byte value read at the singleton's resolved static address, or
/// unused (zero) for an all-static class.
pub open spec fn instance_base<F: Reflection, R: MemReader>(
    b: ClassBinding,
    refl: F,
    reader: R,
    c: u64,
    inst: Option<u64>,
) -> Option<u64> {
    match shape_of(b.desc.fields@) {
        BindShape::AllStatic => Some(0u64),
        BindShape::InstanceBacked => inst,
        BindShape::SingletonBacked => match slot_value(
            b,
            refl,
            c,
            singleton_index(b.desc.fields@),
        ) {
            Option::None => None,
            Option::Some(a) => value_at::<u64, R>(reader, a),
        },
    }
}

/// The bytes field `i`'s data read returns: static and singleton fields read
/// at their resolved absolute address (a singleton's value is the 8-byte
/// instance address itself), plain fields at `base + offset`.
pub open spec fn field_read<F: Reflection, R: MemReader>(
    b: ClassBinding,
    refl: F,
    reader: R,
    c: u64,
    base: u64,
    i: int,
) -> Option<Seq<u8>> {
    let f = b.desc.fields@[i];
    match slot_value(b, refl, c, i) {
        Option::None => None,
        Option::Some(v) => {
            if f.is_singleton {
                read_span(reader, v, 8)
            } else if f.is_static {
                read_span(reader, v, f.width as nat)
            } else if base + v <= u64::MAX {
                read_span(reader, (base + v) as u64, f.width as nat)
            } else {
                None
            }
        },
    }
}

/// What one read call returns: absence as soon as the class, any slot, the
/// instance base or any field's data read fails, else every field's bytes.
pub open spec fn read_result<F: Reflection, R: MemReader>(
    b: ClassBinding,
    refl: F,
    reader: R,
    inst: Option<u64>,
) -> Option<Seq<Seq<u8>>> {
    match resolved_class(b, refl) {
        Option::None => None,
        Option::Some(c) => {
            if !all_slots_resolve(b, refl, c) {
                None
            } else {
                match instance_base(b, refl, reader, c, inst) {
                    Option::None => None,
                    Option::Some(base) => {
                        let n = b.desc.fields@.len();
                        if forall|i: int|
                            0 <= i < n ==> #[trigger] field_read(b, refl, reader, c, base, i)
                                is Some {
                            Some(
                                Seq::new(
                                    n,
                                    |i: int| field_read(b, refl, reader, c, base, i)->0,
                                ),
                            )
                        } else {
                            None
                        }
                    },
                }
            }
        },
    }
}

/// How many cache slots a call may have to fill: the class handle and each
/// unresolved field slot.
pub open spec fn count_cold(s: Seq<Option<u64>>, i: int) -> nat
    decreases i,
{
    if i <= 0 {
        0
    } else {
        count_cold(s, i - 1) + (if s[i - 1] is None {
            1nat
        } else {
            0nat
        })
    }
}

/// The lookups a call from this cache state can spend at most.
pub open spec fn cold_lookups(b: ClassBinding) -> nat {
    (if b.class is None {
        1nat
    } else {
        0nat
    }) + count_cold(b.slots@, b.slots@.len() as int)
}

/// Everything one read call promises, relating the binding and reflection
/// states before (`pre`, `rpre`) and after (`post`, `rpost`) the call to its
/// result: the caches only warm up, the result is exactly what the model
/// and the reader determine, and a call whose caches are already warm
/// performs no lookup at all.
pub open spec fn read_post<F: Reflection, R: MemReader>(
    pre: ClassBinding,
    post: ClassBinding,
    rpre: F,
    rpost: F,
    reader: R,
    inst: Option<u64>,
    r: Option<Vec<Vec<u8>>>,
) -> bool {
    &&& post.desc == pre.desc
    &&& post.shape == pre.shape
    &&& post.slots@.len() == pre.slots@.len()
    &&& post.wf()
    &&& same_model(rpre, rpost)
    &&& post.class == resolved_class(pre, rpre)
    &&& forall|i: int|
        0 <= i < pre.slots@.len() && pre.slots@[i] is Some ==> post.slots@[i] == pre.slots@[i]
    &&& (r is Some) <==> (read_result(pre, rpre, reader, inst) is Some)
    &&& r is Some ==> ({
        let vals = read_result(pre, rpre, reader, inst)->0;
        &&& r->0@.len() == vals.len()
        &&& forall|i: int| 0 <= i < vals.len() ==> #[trigger] r->0@[i]@ == vals[i]
    })
    &&& r is Some ==> forall|i: int|
        0 <= i < pre.slots@.len() ==> #[trigger] post.slots@[i] == slot_value(
            pre,
            rpre,
            resolved_class(pre, rpre)->0,
            i,
        )
    &&& (pre.class is Some && (forall|i: int|
        0 <= i < pre.slots@.len() ==> pre.slots@[i] is Some)) ==> rpost.lookups()
        == rpre.lookups()
    &&& rpost.lookups() <= rpre.lookups() + cold_lookups(pre)
    &&& r is Some ==> rpost.lookups() == rpre.lookups() + cold_lookups(pre)
}

impl ClassBinding {
    /// Resolves (if not yet cached) and returns the class handle; the cache
    /// is left empty on a failed lookup so the next call retries.
    pub fn class<F: Reflection>(&mut self, refl: &mut F) -> (r: Option<u64>)
        ensures
            final (self).desc == old(self).desc,
            final (self).shape == old(self).shape,
            final (self).slots == old(self).slots,
            r == resolved_class(*old(self), *old(refl)),
            final (self).class == r,
            same_model(*old(refl), *final (refl)),
            old(self).class is Some ==> final (refl).lookups() == old(refl).lookups(),
            final (refl).lookups() <= old(refl).lookups() + 1,
    {
        match self.class {
            Some(c) => Some(c),
            None => match refl.get_class(self.desc.name.as_str()) {
                Some(c) => {
                    self.class = Some(c);
                    Some(c)
                },
                None => None,
            },
        }
    }

    /// The shared body of the read operations. Resolves the class handle and
    /// every field slot (cached after their first success), computes the
    /// instance base, then performs all field data reads: if any read fails,
    /// no partial aggregate is returned. Requires the reflection source
    /// never to answer offset zero for a plain field: the binding treats
    /// zero as a structurally impossible offset.
    fn read_core<F: Reflection, R: MemReader>(
        &mut self,
        refl: &mut F,
        reader: R,
        inst: Option<u64>,
    ) -> (r: Option<Vec<Vec<u8>>>)
        requires
            old(self).wf(),
            old(self).desc.fields@.len() > 0,
            offsets_nonzero(*old(self), *old(refl)),
            (inst is Some) <==> shape_of(old(self).desc.fields@) is InstanceBacked,
        ensures
            read_post(*old(self), *final (self), *old(refl), *final (refl), reader, inst, r),
    {
        let ghost b0 = *old(self);
        let ghost f0 = *old(refl);
        let n = self.desc.fields.len();
        let ghost class_delta: nat = if b0.class is None {
            1nat
        } else {
            0nat
        };
        // Phase 1: the class handle.
        let c: u64 = match self.class {
            Some(c) => c,
            None => match refl.get_class(self.desc.name.as_str()) {
                Some(c) => {
                    self.class = Some(c);
                    c
                },
                None => {
                    proof {
                        assert(resolved_class(b0, f0) is None);
                        lemma_count_cold_mono(b0.slots@, 0, b0.slots@.len() as int);
                    }
                    return None;
                },
            },
        };
        assert(Some(c) == resolved_class(b0, f0));
        // Phase 2: the field slots, each cached on its first success.
        let mut i: usize = 0;
        while i < n
            invariant
                b0 == *old(self),
                f0 == *old(refl),
                class_delta == (if b0.class is None { 1nat } else { 0nat }),
                i <= n,
                n == self.desc.fields@.len(),
                self.desc == b0.desc,
                self.shape == b0.shape,
                b0.wf(),
                self.slots@.len() == n,
                b0.slots@.len() == n,
                self.class == Some(c),
                Some(c) == resolved_class(b0, f0),
                offsets_nonzero(b0, f0),
                same_model(f0, *refl),
                refl.lookups() == f0.lookups() + class_delta + count_cold(b0.slots@, i as int),
                forall|j: int|
                    0 <= j < i ==> #[trigger] self.slots@[j] == slot_value(b0, f0, c, j)
                        && self.slots@[j] is Some,
                forall|j: int| i <= j < n ==> #[trigger] self.slots@[j] == b0.slots@[j],
            decreases n - i,
        {
            let cached = self.slots[i];
            match cached {
                Some(_) => {
                    assert(self.slots@[i as int] == slot_value(b0, f0, c, i as int));
                },
                None => {
                    let f = &self.desc.fields[i];
                    if f.is_static || f.is_singleton {
                        match refl.get_static_field(c, f.name.as_str()) {
                            Some(a) => {
                                self.slots[i] = Some(a);
                            },
                            None => {
                                proof {
                                    assert(slot_value(b0, f0, c, i as int) is None);
                                    assert(!all_slots_resolve(b0, f0, c));
                                    assert(read_result(b0, f0, reader, inst) is None);
                                    lemma_count_cold_mono(b0.slots@, i + 1, n as int);
                                }
                                return None;
                            },
                        }
                    } else {
                        match refl.get_field_offset(c, f.name.as_str()) {
                            Some(off) => {
                                proof {
                                    assert(f0.field_offset_of(c, b0.desc.fields@[i as int].name@)
                                        != Some(0u32));
                                    assert(off != 0);
                                }
                                self.slots[i] = Some(off as u64);
                            },
                            None => {
                                proof {
                                    assert(slot_value(b0, f0, c, i as int) is None);
                                    assert(!all_slots_resolve(b0, f0, c));
                                    assert(read_result(b0, f0, reader, inst) is None);
                                    lemma_count_cold_mono(b0.slots@, i + 1, n as int);
                                }
                                return None;
                            },
                        }
                    }
                },
            }
            i += 1;
        }
        assert(all_slots_resolve(b0, f0, c)) by {
            assert(forall|j: int|
                0 <= j < n ==> #[trigger] slot_value(b0, f0, c, j) == self.slots@[j]);
        }
        assert(plain_slots_nonzero(*self)) by {
            assert forall|j: int|
                0 <= j < self.desc.fields@.len() && !(#[trigger] self.desc.fields@[j]).is_static
                    && !self.desc.fields@[j].is_singleton implies self.slots@[j] != Some(0u64) by {
                assert(self.slots@[j] == slot_value(b0, f0, c, j));
                if b0.slots@[j] is Some {
                    assert(b0.slots@[j] != Some(0u64));
                } else {
                    assert(f0.field_offset_of(c, b0.desc.fields@[j].name@) != Some(0u32));
                }
            }
        }
        // Phase 3: the instance base.
        let base: u64 = match self.shape {
            BindShape::AllStatic => 0,
            BindShape::InstanceBacked => match inst {
                Some(b) => b,
                None => {
                    proof {
                        assert(false);
                    }
                    0
                },
            },
            BindShape::SingletonBacked => {
                let ghost w = singleton_index(b0.desc.fields@);
                proof {
                    assert(has_singleton(b0.desc.fields@));
                    assert(0 <= w < n && b0.desc.fields@[w].is_singleton);
                    lemma_singleton_unique(b0.desc.fields@);
                }
                let mut j: usize = 0;
                while !self.desc.fields[j].is_singleton
                    invariant
                        j <= w,
                        0 <= w < n,
                        n == self.desc.fields@.len(),
                        self.desc == b0.desc,
                        b0.desc.fields@[w].is_singleton,
                    decreases n - j,
                {
                    proof {
                        assert(j as int != w);
                    }
                    j += 1;
                }
                proof {
                    assert(self.desc.fields@[j as int].is_singleton);
                    lemma_singleton_unique(b0.desc.fields@);
                    assert(j as int == w);
                }
                let saddr = match self.slots[j] {
                    Some(a) => a,
                    None => {
                        proof {
                            assert(false);
                        }
                        0
                    },
                };
                assert(Some(saddr) == slot_value(b0, f0, c, w));
                match crate::shaped::read_value::<u64, R>(&reader, saddr) {
                    Some(b) => {
                        assert(instance_base(b0, f0, reader, c, inst) == Some(b));
                        b
                    },
                    None => {
                        proof {
                            assert(instance_base(b0, f0, reader, c, inst) is None);
                            assert(read_result(b0, f0, reader, inst) is None);
                            if b0.class is Some && (forall|k: int|
                                0 <= k < n ==> b0.slots@[k] is Some) {
                                lemma_count_cold_warm(b0.slots@, b0.slots@.len() as int);
                            }
                        }
                        return None;
                    },
                }
            },
        };
        assert(instance_base(b0, f0, reader, c, inst) == Some(base));
        // Phase 4: all field data reads, all-or-nothing.
        let mut vals: Vec<Vec<u8>> = Vec::new();
        let mut i: usize = 0;
        while i < n
            invariant
                b0 == *old(self),
                f0 == *old(refl),
                class_delta == (if b0.class is None { 1nat } else { 0nat }),
                i <= n,
                n == self.desc.fields@.len(),
                self.desc == b0.desc,
                self.shape == b0.shape,
                b0.wf(),
                self.slots@.len() == n,
                b0.slots@.len() == n,
                self.class == Some(c),
                Some(c) == resolved_class(b0, f0),
                same_model(f0, *refl),
                plain_slots_nonzero(*self),
                refl.lookups() == f0.lookups() + class_delta + count_cold(
                    b0.slots@,
                    b0.slots@.len() as int,
                ),
                forall|j: int|
                    0 <= j < n ==> #[trigger] self.slots@[j] == slot_value(b0, f0, c, j)
                        && self.slots@[j] is Some,
                all_slots_resolve(b0, f0, c),
                instance_base(b0, f0, reader, c, inst) == Some(base),
                vals@.len() == i,
                forall|j: int|
                    0 <= j < i ==> #[trigger] field_read(b0, f0, reader, c, base, j) is Some
                        && vals@[j]@ == field_read(b0, f0, reader, c, base, j)->0,
            decreases n - i,
        {
            let f = &self.desc.fields[i];
            let slot = match self.slots[i] {
                Some(v) => v,
                None => {
                    proof {
                        assert(false);
                    }
                    0
                },
            };
            let got: Option<Vec<u8>> = if f.is_singleton {
                reader.read_bytes(slot, 8)
            } else if f.is_static {
                reader.read_bytes(slot, f.width)
            } else {
                match base.checked_add(slot) {
                    Some(a) => reader.read_bytes(a, f.width),
                    None => None,
                }
            };
            match got {
                Some(bytes) => {
                    proof {
                        assert(field_read(b0, f0, reader, c, base, i as int) == Some(bytes@));
                    }
                    vals.push(bytes);
                },
                None => {
                    proof {
                        assert(field_read(b0, f0, reader, c, base, i as int) is None);
                        assert(read_result(b0, f0, reader, inst) is None);
                        if b0.class is Some && (forall|k: int|
                            0 <= k < n ==> b0.slots@[k] is Some) {
                            lemma_count_cold_warm(b0.slots@, b0.slots@.len() as int);
                        }
                    }
                    return None;
                },
            }
            i += 1;
        }
        proof {
            assert(forall|j: int|
                0 <= j < n ==> #[trigger] field_read(b0, f0, reader, c, base, j) is Some);
            assert(read_result(b0, f0, reader, inst) is Some);
            if b0.class is Some && (forall|k: int| 0 <= k < n ==> b0.slots@[k] is Some) {
                lemma_count_cold_warm(b0.slots@, b0.slots@.len() as int);
            }
        }
        Some(vals)
    }

    /// Reads the field aggregate of an all-static or singleton-backed class:
    /// no instance parameter, the bytes of each field in declaration order,
    /// or absence as soon as any lookup or read fails — never a partial
    /// aggregate. Lookups are cached across calls; data reads are performed
    /// on every call.
    pub fn read<F: Reflection, R: MemReader>(&mut self, refl: &mut F, reader: R) -> (r: Option<
        Vec<Vec<u8>>,
    >)
        requires
            old(self).wf(),
            old(self).desc.fields@.len() > 0,
            offsets_nonzero(*old(self), *old(refl)),
            !(shape_of(old(self).desc.fields@) is InstanceBacked),
        ensures
            read_post(
                *old(self),
                *final (self),
                *old(refl),
                *final (refl),
                reader,
                None::<u64>,
                r,
            ),
    {
        self.read_core(refl, reader, None)
    }

    /// Reads the field aggregate of an instance-backed class from the given
    /// instance address; otherwise as [`ClassBinding::read`].
    pub fn read_instance<F: Reflection, R: MemReader>(
        &mut self,
        refl: &mut F,
        reader: R,
        instance: u64,
    ) -> (r: Option<Vec<Vec<u8>>>)
        requires
            old(self).wf(),
            old(self).desc.fields@.len() > 0,
            offsets_nonzero(*old(self), *old(refl)),
            shape_of(old(self).desc.fields@) is InstanceBacked,
        ensures
            read_post(
                *old(self),
                *final (self),
                *old(refl),
                *final (refl),
                reader,
                Some(instance),
                r,
            ),
    {
        self.read_core(refl, reader, Some(instance))
    }

    /// The convenience form of [`ClassBinding::read_instance`] that takes a
    /// pointer to the instance instead of a raw address; not null-checked.
    pub fn read_pointer<T, F: Reflection, R: MemReader>(
        &mut self,
        refl: &mut F,
        reader: R,
        pointer: Pointer<T>,
    ) -> (r: Option<Vec<Vec<u8>>>)
        requires
            old(self).wf(),
            old(self).desc.fields@.len() > 0,
            offsets_nonzero(*old(self), *old(refl)),
            shape_of(old(self).desc.fields@) is InstanceBacked,
        ensures
            read_post(
                *old(self),
                *final (self),
                *old(refl),
                *final (refl),
                reader,
                Some(pointer.address),
                r,
            ),
    {
        let addr = pointer.address_value();
        self.read_instance(refl, reader, addr)
    }
}

proof fn lemma_count_cold_mono(s: Seq<Option<u64>>, i: int, j: int)
    requires
        i <= j,
    ensures
        count_cold(s, i) <= count_cold(s, j),
    decreases j - i,
{
    if i < j {
        lemma_count_cold_mono(s, i, j - 1);
    }
}

proof fn lemma_count_cold_warm(s: Seq<Option<u64>>, i: int)
    requires
        forall|j: int| 0 <= j < s.len() ==> s[j] is Some,
        i <= s.len(),
    ensures
        count_cold(s, i) == 0,
    decreases i,
{
    if i > 0 {
        lemma_count_cold_warm(s, i - 1);
    }
}

/// Law: a successful read leaves every cache warm, and a binding in that
/// state determines the same aggregate from the same memory and any
/// reflection state that answers like the one it was warmed against — with
/// no lookup left to spend, so the next call performs zero lookups.
pub proof fn lemma_read_warms_caches<F: Reflection, R: MemReader>(
    pre: ClassBinding,
    post: ClassBinding,
    rpre: F,
    rpost: F,
    reader: R,
    inst: Option<u64>,
    r: Option<Vec<Vec<u8>>>,
)
    requires
        pre.wf(),
        read_post(pre, post, rpre, rpost, reader, inst, r),
        r is Some,
    ensures
        post.class is Some,
        forall|i: int| 0 <= i < post.slots@.len() ==> post.slots@[i] is Some,
        cold_lookups(post) == 0,
        read_result(post, rpost, reader, inst) == read_result(pre, rpre, reader, inst),
{
    let c = resolved_class(pre, rpre)->0;
    assert(resolved_class(pre, rpre) is Some);
    assert(post.class == Some(c));
    assert(all_slots_resolve(pre, rpre, c));
    assert forall|i: int| 0 <= i < post.slots@.len() implies post.slots@[i] is Some by {
        assert(post.slots@[i] == slot_value(pre, rpre, c, i));
    }
    lemma_count_cold_warm(post.slots@, post.slots@.len() as int);
    assert(resolved_class(post, rpost) == Some(c));
    assert(forall|i: int|
        0 <= i < post.slots@.len() ==> #[trigger] slot_value(post, rpost, c, i) == slot_value(
            pre,
            rpre,
            c,
            i,
        ));
    assert(all_slots_resolve(post, rpost, c));
    assert(post.desc == pre.desc);
    assert(instance_base(post, rpost, reader, c, inst) == instance_base(
        pre,
        rpre,
        reader,
        c,
        inst,
    ));
    let base = instance_base(pre, rpre, reader, c, inst)->0;
    assert(forall|i: int|
        0 <= i < post.desc.fields@.len() ==> #[trigger] field_read(post, rpost, reader, c, base, i)
            == field_read(pre, rpre, reader, c, base, i));
    assert(Seq::new(
        post.desc.fields@.len(),
        |i: int| field_read(post, rpost, reader, c, base, i)->0,
    ) =~= Seq::new(
        pre.desc.fields@.len(),
        |i: int| field_read(pre, rpre, reader, c, base, i)->0,
    ));
}

/// A reflection fixture over explicit tables: class handles by name, static
/// field addresses and instance-field offsets by class handle and name, each
/// answered by the first matching row. It counts its lookups: exactly in the
/// ghost model, and observably in `calls`, which saturates.
pub struct TableReflection {
    pub classes: Vec<(String, u64)>,
    pub statics: Vec<(u64, String, u64)>,
    pub offsets: Vec<(u64, String, u32)>,
    /// The observable lookup count; saturates at its maximum.
    pub calls: u64,
    /// The exact lookup count, in the ghost model.
    pub count: Ghost<nat>,
}

/// The first class handle a table row with this name holds.
pub open spec fn assoc_class(s: Seq<(String, u64)>, name: Seq<char>) -> Option<u64>
    decreases s.len(),
{
    if s.len() == 0 {
        None
    } else if s[0].0@ == name {
        Some(s[0].1)
    } else {
        assoc_class(s.skip(1), name)
    }
}

/// The first static-field address a table row with this class and name
/// holds.
pub open spec fn assoc_static(s: Seq<(u64, String, u64)>, class: u64, name: Seq<char>) -> Option<
    u64,
>
    decreases s.len(),
{
    if s.len() == 0 {
        None
    } else if s[0].0 == class && s[0].1@ == name {
        Some(s[0].2)
    } else {
        assoc_static(s.skip(1), class, name)
    }
}

/// The first field offset a table row with this class and name holds.
pub open spec fn assoc_offset(s: Seq<(u64, String, u32)>, class: u64, name: Seq<char>) -> Option<
    u32,
>
    decreases s.len(),
{
    if s.len() == 0 {
        None
    } else if s[0].0 == class && s[0].1@ == name {
        Some(s[0].2)
    } else {
        assoc_offset(s.skip(1), class, name)
    }
}

impl TableReflection {
    /// A fixture over the given tables, with no lookup performed yet.
    pub fn new_table(
        classes: Vec<(String, u64)>,
        statics: Vec<(u64, String, u64)>,
        offsets: Vec<(u64, String, u32)>,
    ) -> (r: TableReflection)
        ensures
            r.classes == classes,
            r.statics == statics,
            r.offsets == offsets,
            r.calls == 0,
            r.lookups() == 0,
    {
        TableReflection { classes, statics, offsets, calls: 0, count: Ghost(0) }
    }

    fn tick(&mut self)
        ensures
            final (self).classes == old(self).classes,
            final (self).statics == old(self).statics,
            final (self).offsets == old(self).offsets,
            final (self).count@ == old(self).count@ + 1,
            final (self).calls == (if old(self).calls < u64::MAX {
                (old(self).calls + 1) as u64
            } else {
                u64::MAX
            }),
    {
        if self.calls < u64::MAX {
            self.calls = self.calls + 1;
        }
        self.count = Ghost(self.count@ + 1);
    }
}

impl Reflection for TableReflection {
    open spec fn class_of(&self, name: Seq<char>) -> Option<u64> {
        assoc_class(self.classes@, name)
    }

    open spec fn static_field_of(&self, class: u64, name: Seq<char>) -> Option<u64> {
        assoc_static(self.statics@, class, name)
    }

    open spec fn field_offset_of(&self, class: u64, name: Seq<char>) -> Option<u32> {
        assoc_offset(self.offsets@, class, name)
    }

    closed spec fn lookups(&self) -> nat {
        self.count@
    }

    fn get_class(&mut self, name: &str) -> (r: Option<u64>)
        ensures
            final (self).calls == (if old(self).calls < u64::MAX {
                (old(self).calls + 1) as u64
            } else {
                u64::MAX
            }),
    {
        self.tick();
        let key = name.to_owned();
        let n = self.classes.len();
        let mut i: usize = 0;
        assert(self.classes@.skip(0) =~= self.classes@);
        while i < n
            invariant
                self.classes == old(self).classes,
                self.statics == old(self).statics,
                self.offsets == old(self).offsets,
                self.count@ == old(self).count@ + 1,
                self.calls == (if old(self).calls < u64::MAX {
                    (old(self).calls + 1) as u64
                } else {
                    u64::MAX
                }),
                i <= n,
                n == self.classes@.len(),
                key@ == name@,
                assoc_class(self.classes@, name@) == assoc_class(
                    self.classes@.skip(i as int),
                    name@,
                ),
            decreases n - i,
        {
            let row = &self.classes[i];
            assert(self.classes@.skip(i as int)[0] == self.classes@[i as int]);
            if row.0 == key {
                return Some(row.1);
            }
            assert(self.classes@.skip(i as int).skip(1) =~= self.classes@.skip(i as int + 1));
            i += 1;
        }
        assert(self.classes@.skip(n as int) =~= Seq::<(String, u64)>::empty());
        None
    }

    fn get_static_field(&mut self, class: u64, name: &str) -> (r: Option<u64>)
        ensures
            final (self).calls == (if old(self).calls < u64::MAX {
                (old(self).calls + 1) as u64
            } else {
                u64::MAX
            }),
    {
        self.tick();
        let key = name.to_owned();
        let n = self.statics.len();
        let mut i: usize = 0;
        assert(self.statics@.skip(0) =~= self.statics@);
        while i < n
            invariant
                self.classes == old(self).classes,
                self.statics == old(self).statics,
                self.offsets == old(self).offsets,
                self.count@ == old(self).count@ + 1,
                self.calls == (if old(self).calls < u64::MAX {
                    (old(self).calls + 1) as u64
                } else {
                    u64::MAX
                }),
                i <= n,
                n == self.statics@.len(),
                key@ == name@,
                assoc_static(self.statics@, class, name@) == assoc_static(
                    self.statics@.skip(i as int),
                    class,
                    name@,
                ),
            decreases n - i,
        {
            let row = &self.statics[i];
            assert(self.statics@.skip(i as int)[0] == self.statics@[i as int]);
            if row.0 == class && row.1 == key {
                return Some(row.2);
            }
            assert(self.statics@.skip(i as int).skip(1) =~= self.statics@.skip(i as int + 1));
            i += 1;
        }
        assert(self.statics@.skip(n as int) =~= Seq::<(u64, String, u64)>::empty());
        None
    }

    fn get_field_offset(&mut self, class: u64, name: &str) -> (r: Option<u32>)
        ensures
            final (self).calls == (if old(self).calls < u64::MAX {
                (old(self).calls + 1) as u64
            } else {
                u64::MAX
            }),
    {
        self.tick();
        let key = name.to_owned();
        let n = self.offsets.len();
        let mut i: usize = 0;
        assert(self.offsets@.skip(0) =~= self.offsets@);
        while i < n
            invariant
                self.classes == old(self).classes,
                self.statics == old(self).statics,
                self.offsets == old(self).offsets,
                self.count@ == old(self).count@ + 1,
                self.calls == (if old(self).calls < u64::MAX {
                    (old(self).calls + 1) as u64
                } else {
                    u64::MAX
                }),
                i <= n,
                n == self.offsets@.len(),
                key@ == name@,
                assoc_offset(self.offsets@, class, name@) == assoc_offset(
                    self.offsets@.skip(i as int),
                    class,
                    name@,
                ),
            decreases n - i,
        {
            let row = &self.offsets[i];
            assert(self.offsets@.skip(i as int)[0] == self.offsets@[i as int]);
            if row.0 == class && row.1 == key {
                return Some(row.2);
            }
            assert(self.offsets@.skip(i as int).skip(1) =~= self.offsets@.skip(i as int + 1));
            i += 1;
        }
        assert(self.offsets@.skip(n as int) =~= Seq::<(u64, String, u32)>::empty());
        None
    }
}

/// One validation step extends the three flags by field `i`.
proof fn lemma_flag_step(
    fields: Seq<FieldDesc>,
    i: int,
    seen: bool,
    saw_static: bool,
    saw_instance: bool,
)
    requires
        0 <= i < fields.len(),
        seen == has_singleton(fields.take(i)),
        saw_static == has_static(fields.take(i)),
        saw_instance == has_instance(fields.take(i)),
    ensures
        has_singleton(fields.take(i + 1)) == (seen || fields[i].is_singleton),
        has_static(fields.take(i + 1)) == (saw_static || fields[i].is_static),
        has_instance(fields.take(i + 1)) == (saw_instance || !fields[i].is_static),
{
    let pre = fields.take(i);
    let ext = fields.take(i + 1);
    assert(ext.len() == i + 1);
    assert(forall|j: int| 0 <= j < i ==> ext[j] == #[trigger] pre[j]);
    assert(ext[i] == fields[i]);
    if seen || fields[i].is_singleton {
        if seen {
            let w = choose|j: int| 0 <= j < pre.len() && (#[trigger] pre[j]).is_singleton;
            assert(ext[w].is_singleton);
        } else {
            assert(ext[i].is_singleton);
        }
        assert(has_singleton(ext));
    } else {
        assert(forall|j: int|
            0 <= j < ext.len() ==> !(#[trigger] ext[j]).is_singleton) by {
            assert(forall|j: int|
                0 <= j < i ==> !(#[trigger] pre[j]).is_singleton);
        }
    }
    if saw_static || fields[i].is_static {
        if saw_static {
            let w = choose|j: int| 0 <= j < pre.len() && (#[trigger] pre[j]).is_static;
            assert(ext[w].is_static);
        } else {
            assert(ext[i].is_static);
        }
        assert(has_static(ext));
    } else {
        assert(forall|j: int| 0 <= j < ext.len() ==> !(#[trigger] ext[j]).is_static) by {
            assert(forall|j: int| 0 <= j < i ==> !(#[trigger] pre[j]).is_static);
        }
    }
    if saw_instance || !fields[i].is_static {
        if saw_instance {
            let w = choose|j: int| 0 <= j < pre.len() && !(#[trigger] pre[j]).is_static;
            assert(!ext[w].is_static);
        } else {
            assert(!ext[i].is_static);
        }
        assert(has_instance(ext));
    } else {
        assert(forall|j: int| 0 <= j < ext.len() ==> (#[trigger] ext[j]).is_static) by {
            assert(forall|j: int| 0 <= j < i ==> (#[trigger] pre[j]).is_static);
        }
    }
}

} // verus!
