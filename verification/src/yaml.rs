use vstd::prelude::*;

use crate::error::ParcelError;

verus! {

/// The shape of a structured-text value, as far as the header format
/// cares: unsigned integers, text, lists, ordered key/value tables, and
/// everything else lumped together.  Values of this type exist only in
/// specifications.
#[verifier::ext_equal]
pub enum Yv {
    /// An unsigned integer.
    Num(u64),
    /// A text scalar.
    Text(Seq<char>),
    /// A list of values.
    Arr(Seq<Yv>),
    /// An ordered table of key/value pairs.
    Tab(Seq<(Yv, Yv)>),
    /// Anything the header format never produces: null, booleans,
    /// signed or floating-point numbers, tagged values.
    Other,
}

#[verifier::external_type_specification]
#[verifier::external_body]
pub struct ExValue(serde_yaml::Value);

#[verifier::external_type_specification]
#[verifier::external_body]
pub struct ExMapping(serde_yaml::Mapping);

/// The shape of a `serde_yaml::Value`, with integers that fit `u64` read
/// as numbers and everything outside the header's subset as `Other`.
pub uninterp spec fn yvalue_of(v: serde_yaml::Value) -> Yv;

/// The key/value pairs of a `serde_yaml::Mapping`, in insertion order,
/// each read through `yvalue_of`.
pub uninterp spec fn ymap_entries(m: serde_yaml::Mapping) -> Seq<(Yv, Yv)>;

/// What parsing a byte string as one structured-text document yields:
/// the shape of the parsed value, or nothing when the bytes are not a
/// well-formed document.
pub uninterp spec fn yaml_doc(b: Seq<u8>) -> Option<Yv>;

/// The five-byte document terminator: a line holding exactly `...`.
pub open spec fn terminator() -> Seq<u8> {
    seq![10u8, 46u8, 46u8, 46u8, 10u8]
}

/// No window of `b` holds the document terminator.
pub open spec fn no_terminator(b: Seq<u8>) -> bool {
    forall|i: int| 0 <= i <= b.len() - 5 ==> #[trigger] b.subrange(i, i + 5) != terminator()
}

/// Every byte is an ASCII space.
pub open spec fn all_spaces(p: Seq<u8>) -> bool {
    forall|i: int| 0 <= i < p.len() ==> #[trigger] p[i] == 32u8
}

/// Whether a text scalar is free of line-break characters.  The emitter
/// writes a scalar holding a newline in literal block style, and one
/// holding another break raw inside quotes; both would change under
/// re-parsing or padding, so the header never carries them.
pub open spec fn text_safe(s: Seq<char>) -> bool {
    forall|i: int|
        0 <= i < s.len() ==> #[trigger] s[i] != '\n' && s[i] != '\r' && s[i] != '\u{85}' && s[i]
            != '\u{2028}' && s[i] != '\u{2029}'
}

/// Whether a value is safe to emit as part of the header: nested no
/// deeper than `d`, built only of numbers, break-free text, lists and
/// tables.  Values outside this shape (deep nesting past the parser's
/// limit, breaks in scalars, anything `Other`) are never emitted.
pub open spec fn yv_ok(m: Yv, d: int) -> bool
    decreases d,
{
    if d <= 0 {
        false
    } else {
        match m {
            Yv::Num(_) => true,
            Yv::Text(s) => text_safe(s),
            Yv::Arr(xs) => forall|i: int| 0 <= i < xs.len() ==> yv_ok(#[trigger] xs[i], d - 1),
            Yv::Tab(es) => forall|i: int|
                0 <= i < es.len() ==> yv_ok((#[trigger] es[i]).0, d - 1) && yv_ok(es[i].1, d - 1),
            Yv::Other => false,
        }
    }
}

/// The nesting depth the header format stays comfortably below; the
/// parser refuses documents nested past 128.
pub open spec fn depth_limit() -> int {
    64
}

/// What serialising a value emits, when it succeeds: a function of the
/// value alone.
pub uninterp spec fn yaml_emit(m: Yv) -> Seq<u8>;

/// Whether serialising a value succeeds: a function of the value alone.
pub uninterp spec fn yaml_emits(m: Yv) -> bool;

/// Relies on `serde_yaml::Number::from` and `Value::Number`: the value
/// holds exactly the given integer.
#[verifier::external_body]
pub(crate) fn yv_u64(x: u64) -> (r: serde_yaml::Value)
    ensures
        yvalue_of(r) == Yv::Num(x),
{
    serde_yaml::Value::Number(serde_yaml::Number::from(x))
}

/// Relies on `Value::String`: the value holds exactly the given text.
#[verifier::external_body]
pub(crate) fn yv_str(s: &str) -> (r: serde_yaml::Value)
    ensures
        yvalue_of(r) == Yv::Text(s@),
{
    serde_yaml::Value::String(s.to_string())
}

/// Relies on `Value::Sequence`: the value holds exactly the given items
/// in order.
#[verifier::external_body]
pub(crate) fn yv_seq(items: Vec<serde_yaml::Value>) -> (r: serde_yaml::Value)
    ensures
        yvalue_of(r) == Yv::Arr(Seq::new(items@.len(), |i: int| yvalue_of(items@[i]))),
{
    serde_yaml::Value::Sequence(items)
}

/// Relies on `serde_yaml::Mapping::new`: a fresh mapping is empty.
#[verifier::external_body]
pub(crate) fn ymap_new() -> (r: serde_yaml::Mapping)
    ensures
        ymap_entries(r) == Seq::<(Yv, Yv)>::empty(),
{
    serde_yaml::Mapping::new()
}

/// Relies on `serde_yaml::Mapping::insert`, which keeps insertion order:
/// inserting a key absent so far appends the pair at the end.
#[verifier::external_body]
pub(crate) fn ymap_insert(m: &mut serde_yaml::Mapping, k: serde_yaml::Value, v: serde_yaml::Value)
    requires
        forall|i: int|
            0 <= i < ymap_entries(*old(m)).len() ==> ymap_entries(*old(m))[i].0 != yvalue_of(k),
    ensures
        ymap_entries(*final(m)) == ymap_entries(*old(m)).push((yvalue_of(k), yvalue_of(v))),
{
    m.insert(k, v);
}

/// Relies on `Value::Mapping`: the value holds exactly the mapping.
#[verifier::external_body]
pub(crate) fn yv_map(m: serde_yaml::Mapping) -> (r: serde_yaml::Value)
    ensures
        yvalue_of(r) == Yv::Tab(ymap_entries(m)),
{
    serde_yaml::Value::Mapping(m)
}

/// Relies on `serde_yaml::to_string`.  The claims hold only for values
/// within `yv_ok`: every text scalar is break-free, so the emitter never
/// chooses literal block style (reserved for scalars holding a newline)
/// and never writes a raw break inside a quoted scalar, and the nesting
/// stays far below the parser's recursion limit.  Within that shape the
/// emitted document is a deterministic function of the value; it parses
/// back to a value of the same shape, also with trailing ASCII-space
/// padding appended (each document line is structure-prefixed, so
/// trailing blanks past the final newline belong to no scalar); it ends
/// with a newline; and no line of it consists of exactly `...`.
#[verifier::external_body]
pub(crate) fn yaml_to_bytes(v: &serde_yaml::Value) -> (r: Result<Vec<u8>, ParcelError>)
    requires
        yv_ok(yvalue_of(*v), depth_limit()),
    ensures
        (match r {
            Ok(_) => yaml_emits(yvalue_of(*v)),
            Err(e) => !yaml_emits(yvalue_of(*v)) && e == ParcelError::Codec,
        }),
        r matches Ok(b) ==> b@ == yaml_emit(yvalue_of(*v)) && yaml_doc(b@) == Some(yvalue_of(*v))
            && (forall|p: Seq<u8>| all_spaces(p) ==> yaml_doc(b@ + p) == Some(yvalue_of(*v)))
            && no_terminator(b@) && b@.len() > 0 && b@[b@.len() - 1] == 10u8,
{
    match serde_yaml::to_string(v) {
        Ok(s) => Ok(s.into_bytes()),
        Err(_) => Err(ParcelError::Codec),
    }
}

/// Relies on `serde_yaml::from_slice`: parsing is a function of the
/// bytes alone, succeeding exactly when they form a document.
#[verifier::external_body]
pub(crate) fn yaml_from_bytes(b: &[u8]) -> (r: Option<serde_yaml::Value>)
    ensures
        match r {
            Some(v) => yaml_doc(b@) == Some(yvalue_of(v)),
            None => yaml_doc(b@) is None,
        },
{
    serde_yaml::from_slice(b).ok()
}

/// Relies on `Value` pattern matching and `Number::as_u64`: the number
/// is returned exactly when the value is an integer that fits `u64`.
#[verifier::external_body]
pub(crate) fn yv_as_u64(v: &serde_yaml::Value) -> (r: Option<u64>)
    ensures
        r == (match yvalue_of(*v) {
            Yv::Num(x) => Some(x),
            _ => None,
        }),
{
    match v {
        serde_yaml::Value::Number(n) => n.as_u64(),
        _ => None,
    }
}

/// Relies on `Value` pattern matching: the text is returned exactly when
/// the value is a string.
#[verifier::external_body]
pub(crate) fn yv_as_str(v: &serde_yaml::Value) -> (r: Option<String>)
    ensures
        match r {
            Some(s) => yvalue_of(*v) == Yv::Text(s@),
            None => !(yvalue_of(*v) is Text),
        },
{
    match v {
        serde_yaml::Value::String(s) => Some(s.clone()),
        _ => None,
    }
}

/// Relies on `Value` pattern matching: the items are returned exactly
/// when the value is a sequence.
#[verifier::external_body]
pub(crate) fn yv_as_seq(v: &serde_yaml::Value) -> (r: Option<Vec<serde_yaml::Value>>)
    ensures
        match r {
            Some(items) => yvalue_of(*v) == Yv::Arr(
                Seq::new(items@.len(), |i: int| yvalue_of(items@[i])),
            ),
            None => !(yvalue_of(*v) is Arr),
        },
{
    match v {
        serde_yaml::Value::Sequence(s) => Some(s.clone()),
        _ => None,
    }
}

/// Relies on `Value` pattern matching and `Mapping::iter`, which walks
/// entries in insertion order: the pairs are returned exactly when the
/// value is a mapping.
#[verifier::external_body]
pub(crate) fn yv_as_map_entries(v: &serde_yaml::Value) -> (r: Option<
    Vec<(serde_yaml::Value, serde_yaml::Value)>,
>)
    ensures
        match r {
            Some(es) => yvalue_of(*v) == Yv::Tab(
                Seq::new(es@.len(), |i: int| (yvalue_of(es@[i].0), yvalue_of(es@[i].1))),
            ),
            None => !(yvalue_of(*v) is Tab),
        },
{
    match v {
        serde_yaml::Value::Mapping(m) => Some(
            m.iter().map(|(k, w)| (k.clone(), w.clone())).collect(),
        ),
        _ => None,
    }
}

} // verus!
