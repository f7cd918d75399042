use dynasmrt::DynasmApi;
use dynasmrt::DynasmLabelApi;
use vstd::prelude::*;

verus! {

/// The x64 assembler of dynasmrt: it takes bytes, labels and jump fields, and links them
/// into executable memory. What it holds is known through `assembled` and `labels_made`
/// alone.
#[verifier::external_body]
pub struct Assembler {
    inner: dynasmrt::x64::Assembler,
}

/// Memory that holds linked machine code and can be run.
#[verifier::external_type_specification]
#[verifier::external_body]
pub struct ExExecutableBuffer(dynasmrt::ExecutableBuffer);

/// A label of dynasmrt that is made first and placed later.
#[verifier::external_type_specification]
#[verifier::external_body]
pub struct ExDynamicLabel(dynasmrt::DynamicLabel);

/// One thing handed to the assembler.
pub enum Emit {
    /// One byte of machine code.
    Byte(u8),
    /// The label with this number stands here.
    Label(nat),
    /// The four bytes before this point are a jump distance: linking fills them with the
    /// way from this point to the label with this number.
    Jump(nat),
}

/// Everything handed to the assembler so far, in order.
pub uninterp spec fn assembled(ops: Assembler) -> Seq<Emit>;

/// How many labels the assembler has made so far.
pub uninterp spec fn labels_made(ops: Assembler) -> nat;

/// The number that tells a label from the others of its assembler.
pub uninterp spec fn label_id(label: dynasmrt::DynamicLabel) -> nat;

/// The bytes that a buffer holds.
pub uninterp spec fn buffer_bytes(buf: dynasmrt::ExecutableBuffer) -> Seq<u8>;

/// The machine code that linking makes of a listing: its bytes, with every jump field
/// filled in.
pub uninterp spec fn linked(listing: Seq<Emit>) -> Seq<u8>;

/// Bytes as things handed to the assembler.
pub open spec fn code_bytes(bytes: Seq<u8>) -> Seq<Emit> {
    bytes.map_values(|b: u8| Emit::Byte(b))
}

/// The `n` low bytes of a number, the lowest first.
pub open spec fn le_bytes(x: nat, n: nat) -> Seq<u8>
    decreases n,
{
    if n == 0 {
        Seq::empty()
    } else {
        seq![(x % 0x100) as u8] + le_bytes(x / 0x100, (n - 1) as nat)
    }
}

/// How many bytes of machine code stand among the first `k` things of a listing.
pub open spec fn byte_count(listing: Seq<Emit>, k: int) -> int
    decreases k,
{
    if k <= 0 {
        0
    } else if listing[k - 1] is Byte {
        byte_count(listing, k - 1) + 1
    } else {
        byte_count(listing, k - 1)
    }
}

/// The label with number `id` stands at index `i` of the listing.
pub open spec fn placed_at(listing: Seq<Emit>, id: nat, i: int) -> bool {
    0 <= i < listing.len() && listing[i] == Emit::Label(id)
}

/// A jump field at index `i` of the listing points to the label with number `id`.
pub open spec fn aimed_at(listing: Seq<Emit>, id: nat, i: int) -> bool {
    0 <= i < listing.len() && listing[i] == Emit::Jump(id)
}

/// The labels that stand somewhere in the listing.
pub open spec fn placed(listing: Seq<Emit>) -> Set<nat> {
    Set::new(|id: nat| exists|i: int| placed_at(listing, id, i))
}

/// The labels that some jump field of the listing points to.
pub open spec fn targets(listing: Seq<Emit>) -> Set<nat> {
    Set::new(|id: nat| exists|i: int| aimed_at(listing, id, i))
}

/// No label stands in two places.
pub open spec fn labels_unique(listing: Seq<Emit>) -> bool {
    forall|id: nat, i: int, j: int|
        placed_at(listing, id, i) && placed_at(listing, id, j) ==> i == j
}

/// Every jump field has its four bytes before it.
pub open spec fn fields_present(listing: Seq<Emit>) -> bool {
    forall|id: nat, i: int| aimed_at(listing, id, i) ==> byte_count(listing, i) >= 4
}

/// The listing can be linked: every label in it was made by the assembler and stands in
/// one place only, every jump field has its four bytes and a placed label to point to,
/// and the code is short enough for any distance in it to fit a field.
pub open spec fn linkable(listing: Seq<Emit>, made: nat) -> bool {
    &&& byte_count(listing, listing.len() as int) <= i32::MAX
    &&& labels_unique(listing)
    &&& fields_present(listing)
    &&& forall|id: nat| placed(listing).contains(id) ==> id < made
    &&& forall|id: nat| targets(listing).contains(id) ==> placed(listing).contains(id)
}

/// Makes an assembler with nothing in it.
///
/// `dynasmrt::Assembler::new`, which maps a page of memory for the code and hands on the
/// system's error where that fails. The new assembler holds no code and has made no label.
#[verifier::external_body]
pub(crate) fn asm_new() -> (r: Result<Assembler, std::io::Error>)
    ensures
        r matches Ok(ops) ==> assembled(ops).len() == 0 && labels_made(ops) == 0,
{
    match dynasmrt::x64::Assembler::new() {
        Ok(inner) => Ok(Assembler { inner }),
        Err(e) => Err(e),
    }
}

/// The place at which the next byte will stand.
///
/// `DynasmApi::offset`: the number of bytes assembled so far.
#[verifier::external_body]
pub(crate) fn asm_offset(ops: &Assembler) -> (r: usize)
    ensures
        r == byte_count(assembled(*ops), assembled(*ops).len() as int),
{
    ops.inner.offset().0
}

/// Appends bytes of machine code.
///
/// `Extend::extend` of the assembler, which appends the bytes to its code in order.
#[verifier::external_body]
pub(crate) fn asm_extend(ops: &mut Assembler, bytes: &[u8])
    ensures
        assembled(*final(ops)) == assembled(*old(ops)) + code_bytes(bytes@),
        labels_made(*final(ops)) == labels_made(*old(ops)),
{
    ops.inner.extend(bytes)
}

/// Appends a 32-bit number.
///
/// `DynasmApi::push_u32`, which appends the four bytes of the number, the lowest first.
#[verifier::external_body]
pub(crate) fn asm_push_u32(ops: &mut Assembler, value: u32)
    ensures
        assembled(*final(ops)) == assembled(*old(ops)) + code_bytes(le_bytes(value as nat, 4)),
        labels_made(*final(ops)) == labels_made(*old(ops)),
{
    ops.inner.push_u32(value)
}

/// Appends a 64-bit number.
///
/// `DynasmApi::push_u64`, which appends the eight bytes of the number, the lowest first.
#[verifier::external_body]
pub(crate) fn asm_push_u64(ops: &mut Assembler, value: u64)
    ensures
        assembled(*final(ops)) == assembled(*old(ops)) + code_bytes(le_bytes(value as nat, 8)),
        labels_made(*final(ops)) == labels_made(*old(ops)),
{
    ops.inner.push_u64(value)
}

/// Makes a label that stands nowhere yet.
///
/// `Assembler::new_dynamic_label`, which numbers the labels of an assembler from zero in
/// the order in which they are made. The code is left as it is.
#[verifier::external_body]
pub(crate) fn asm_new_label(ops: &mut Assembler) -> (label: dynasmrt::DynamicLabel)
    ensures
        label_id(label) == labels_made(*old(ops)),
        labels_made(*final(ops)) == labels_made(*old(ops)) + 1,
        assembled(*final(ops)) == assembled(*old(ops)),
{
    ops.inner.new_dynamic_label()
}

/// Places a label where the next byte will stand.
///
/// `DynasmLabelApi::dynamic_label`, which notes the current offset for the label. A label
/// placed twice, or one that the assembler has not made, is noted as a fault and makes
/// linking fail: `linkable` leaves such listings out.
#[verifier::external_body]
pub(crate) fn asm_place(ops: &mut Assembler, label: dynasmrt::DynamicLabel)
    ensures
        assembled(*final(ops)) == assembled(*old(ops)).push(Emit::Label(label_id(label))),
        labels_made(*final(ops)) == labels_made(*old(ops)),
{
    ops.inner.dynamic_label(label)
}

/// Marks the four bytes just assembled as a jump distance to a label.
///
/// `DynasmLabelApi::dynamic_reloc`, which notes a field to fill in when the code is
/// linked. The arguments say where the field is and how it is written: it starts
/// `field_offset` bytes back, holds the way to the label from `ref_offset` bytes back,
/// plus `target_offset`, written as the code in `kind` says, where 2 is a signed 32-bit
/// distance. Only the one form that a near jump of x64 takes is admitted.
#[verifier::external_body]
pub(crate) fn asm_jump(
    ops: &mut Assembler,
    label: dynasmrt::DynamicLabel,
    target_offset: isize,
    field_offset: u8,
    ref_offset: u8,
    kind: u8,
)
    requires
        target_offset == 0,
        field_offset == 4,
        ref_offset == 0,
        kind == 2,
    ensures
        assembled(*final(ops)) == assembled(*old(ops)).push(Emit::Jump(label_id(label))),
        labels_made(*final(ops)) == labels_made(*old(ops)),
{
    ops.inner.dynamic_reloc(label, target_offset, field_offset, ref_offset, kind)
}

/// Links the code and hands it out as executable memory.
///
/// `Assembler::finalize`, which fills in every jump field, copies the code into
/// executable memory and gives that memory up, unless the assembler is still shared. The
/// memory holds as many bytes as were assembled.
/// It panics on a listing that cannot be linked, which `linkable` leaves out, and where
/// the system gives it no memory for the code. The bytes that come out depend on the
/// listing alone, since every field holds a distance.
#[verifier::external_body]
pub(crate) fn asm_finalize(ops: Assembler) -> (r: Option<dynasmrt::ExecutableBuffer>)
    requires
        linkable(assembled(ops), labels_made(ops)),
    ensures
        r matches Some(buf) ==> buffer_bytes(buf) == linked(assembled(ops)) && buffer_bytes(
            buf,
        ).len() == byte_count(assembled(ops), assembled(ops).len() as int),
{
    ops.inner.finalize().ok()
}

/// An error for an assembler that would not give up its memory.
///
/// `std::io::Error::from` on `std::io::ErrorKind::Other`.
#[verifier::external_body]
pub(crate) fn assembler_busy() -> std::io::Error {
    std::io::Error::from(std::io::ErrorKind::Other)
}

} // verus!
