//! Stable identities. Every identity is a 256-bit digest of the facts that name
//! the item, so two passes over the same input give the same identities.

use vstd::prelude::*;

verus! {

/// A 256-bit digest. The first field holds the leading sixteen bytes, so the
/// order on digests is the order of their bytes.
#[derive(Clone, Copy, PartialEq, Eq, Structural, Debug, Hash, PartialOrd, Ord)]
pub struct Digest {
    pub hi: u128,
    pub lo: u128,
}

/// Types whose values can be told apart.
pub trait Identity: Copy {
    /// Whether the two values are the same.
    fn same(&self, other: &Self) -> (r: bool)
        ensures
            r == (*self == *other),
    ;
}

pub const BASIS_HI: u128 = 0x6c62272e07bb014262b821756295c58d;

pub const BASIS_LO: u128 = 0x1b873593cc9e2d51a0761d6478bd642f;

pub const PRIME: u128 = 0x0000000001000000000000000000013b;

/// One absorbing step: mix a byte in, then multiply.
pub open spec fn absorb(state: u128, byte: u8) -> u128 {
    (state ^ (byte as u128)).wrapping_mul(PRIME)
}

/// Absorb a whole byte string, first byte first.
pub open spec fn absorb_all(basis: u128, bytes: Seq<u8>) -> u128
    decreases bytes.len(),
{
    if bytes.len() == 0 {
        basis
    } else {
        absorb(absorb_all(basis, bytes.drop_last()), bytes.last())
    }
}

/// The digest of a byte string.
pub open spec fn digest_of(bytes: Seq<u8>) -> Digest {
    Digest { hi: absorb_all(BASIS_HI, bytes), lo: absorb_all(BASIS_LO, bytes) }
}

/// Digest a byte string.
pub fn digest(bytes: &[u8]) -> (r: Digest)
    ensures
        r == digest_of(bytes@),
{
    let mut hi: u128 = BASIS_HI;
    let mut lo: u128 = BASIS_LO;
    let mut i: usize = 0;
    while i < bytes.len()
        invariant
            i <= bytes@.len(),
            hi == absorb_all(BASIS_HI, bytes@.take(i as int)),
            lo == absorb_all(BASIS_LO, bytes@.take(i as int)),
        decreases bytes@.len() - i,
    {
        assert(bytes@.take(i + 1).drop_last() =~= bytes@.take(i as int));
        hi = (hi ^ (bytes[i] as u128)).wrapping_mul(PRIME);
        lo = (lo ^ (bytes[i] as u128)).wrapping_mul(PRIME);
        i += 1;
    }
    assert(bytes@.take(i as int) =~= bytes@);
    Digest { hi, lo }
}

/// The sixteen bytes of a word, most significant first.
pub open spec fn word_bytes(word: u128) -> Seq<u8> {
    Seq::new(16, |i: int| (word >> ((8 * (15 - i)) as u128)) as u8)
}

/// One field of an identity: absent fields, and fields of different lengths,
/// never run together.
pub open spec fn field_bytes(field: Option<Seq<u8>>) -> Seq<u8> {
    match field {
        None => seq![0u8],
        Some(bytes) => seq![1u8] + word_bytes(bytes.len() as u128) + bytes,
    }
}

/// The encoding of a list of fields, in order.
pub open spec fn fields_bytes(fields: Seq<Option<Seq<u8>>>) -> Seq<u8>
    decreases fields.len(),
{
    if fields.len() == 0 {
        Seq::empty()
    } else {
        fields_bytes(fields.drop_last()) + field_bytes(fields.last())
    }
}

/// The identity that a list of fields gives.
pub open spec fn identity_of(fields: Seq<Option<Seq<u8>>>) -> Digest {
    digest_of(fields_bytes(fields))
}

/// The bytes of a digest.
pub open spec fn digest_bytes(d: Digest) -> Seq<u8> {
    word_bytes(d.hi) + word_bytes(d.lo)
}

/// A number as a field.
pub open spec fn number_field(n: u32) -> Option<Seq<u8>> {
    Some(word_bytes(n as u128))
}

/// A digest as a field.
pub open spec fn digest_field(d: Digest) -> Option<Seq<u8>> {
    Some(digest_bytes(d))
}

fn push_word(buffer: &mut Vec<u8>, word: u128)
    ensures
        final(buffer)@ == old(buffer)@ + word_bytes(word),
{
    let ghost before = buffer@;
    let mut i: u128 = 0;
    while i < 16
        invariant
            i <= 16,
            buffer@ == before + word_bytes(word).take(i as int),
        decreases 16 - i,
    {
        let shift: u128 = 8 * (15 - i);
        buffer.push((word >> shift) as u8);
        assert(word_bytes(word).take(i + 1) =~= word_bytes(word).take(i as int).push(word_bytes(word)[i as int]));
        i += 1;
    }
    assert(word_bytes(word).take(16) =~= word_bytes(word));
}

/// Collects the fields of an identity.
pub struct Fields {
    buffer: Vec<u8>,
    fields: Ghost<Seq<Option<Seq<u8>>>>,
}

impl Fields {
    /// The fields collected so far.
    pub closed spec fn list(&self) -> Seq<Option<Seq<u8>>> {
        self.fields@
    }

    #[verifier::type_invariant]
    spec fn encodes(&self) -> bool {
        self.buffer@ == fields_bytes(self.fields@)
    }

    /// No fields.
    pub fn new() -> (r: Self)
        ensures
            r.list() == Seq::<Option<Seq<u8>>>::empty(),
    {
        Fields { buffer: Vec::new(), fields: Ghost(Seq::empty()) }
    }

    /// Add a field that is absent.
    pub fn absent(self) -> (r: Self)
        ensures
            r.list() == self.list().push(None),
    {
        proof {
            use_type_invariant(&self);
        }
        let Fields { buffer, fields } = self;
        let mut buffer = buffer;
        buffer.push(0);
        let ghost next = fields@.push(None);
        proof {
            assert(next.drop_last() =~= fields@);
            assert(buffer@ =~= fields_bytes(next));
        }
        Fields { buffer, fields: Ghost(next) }
    }

    /// Add a byte string.
    pub fn bytes(self, value: &[u8]) -> (r: Self)
        ensures
            r.list() == self.list().push(Some(value@)),
    {
        proof {
            use_type_invariant(&self);
        }
        let Fields { buffer, fields } = self;
        let mut buffer = buffer;
        let ghost before = buffer@;
        buffer.push(1);
        push_word(&mut buffer, value.len() as u128);
        let ghost prefix = buffer@;
        let mut i: usize = 0;
        while i < value.len()
            invariant
                i <= value@.len(),
                buffer@ == prefix + value@.take(i as int),
            decreases value@.len() - i,
        {
            buffer.push(value[i]);
            assert(value@.take(i + 1) =~= value@.take(i as int).push(value@[i as int]));
            i += 1;
        }
        let ghost next = fields@.push(Some(value@));
        proof {
            assert(value@.take(i as int) =~= value@);
            assert(next.drop_last() =~= fields@);
            assert(buffer@ =~= fields_bytes(next));
        }
        Fields { buffer, fields: Ghost(next) }
    }

    /// Add a byte string that may be absent.
    pub fn optional(self, value: Option<&[u8]>) -> (r: Self)
        ensures
            r.list() == self.list().push(
                match value {
                    None => None,
                    Some(bytes) => Some(bytes@),
                },
            ),
    {
        match value {
            None => self.absent(),
            Some(bytes) => self.bytes(bytes),
        }
    }

    /// Add a number.
    pub fn number(self, value: u32) -> (r: Self)
        ensures
            r.list() == self.list().push(number_field(value)),
    {
        let mut word: Vec<u8> = Vec::new();
        push_word(&mut word, value as u128);
        assert(word@ =~= word_bytes(value as u128));
        self.bytes(word.as_slice())
    }

    /// Add an identity.
    pub fn digest(self, value: Digest) -> (r: Self)
        ensures
            r.list() == self.list().push(digest_field(value)),
    {
        let mut words: Vec<u8> = Vec::new();
        push_word(&mut words, value.hi);
        push_word(&mut words, value.lo);
        assert(words@ =~= digest_bytes(value));
        self.bytes(words.as_slice())
    }

    /// The identity of the collected fields.
    pub fn finish(self) -> (r: Digest)
        ensures
            r == identity_of(self.list()),
    {
        proof {
            use_type_invariant(&self);
        }
        digest(self.buffer.as_slice())
    }
}

/// The byte of a hexadecimal digit below sixteen.
pub open spec fn hex_digit(n: u8) -> u8 {
    if n < 10 {
        (48 + n) as u8
    } else {
        (87 + n) as u8
    }
}

/// The lower-case hexadecimal text of a byte string.
pub open spec fn hex_text(bytes: Seq<u8>) -> Seq<u8> {
    Seq::new(
        2 * bytes.len(),
        |i: int|
            if i % 2 == 0 {
                hex_digit((bytes[i / 2] / 16) as u8)
            } else {
                hex_digit((bytes[i / 2] % 16) as u8)
            },
    )
}

/// The text of a digest: its bytes in hexadecimal.
pub fn digest_text(value: Digest) -> (r: Vec<u8>)
    ensures
        r@ == hex_text(digest_bytes(value)),
{
    let mut bytes: Vec<u8> = Vec::new();
    push_word(&mut bytes, value.hi);
    push_word(&mut bytes, value.lo);
    assert(bytes@ =~= digest_bytes(value));
    let mut text: Vec<u8> = Vec::new();
    let mut i: usize = 0;
    while i < bytes.len()
        invariant
            i <= bytes@.len(),
            bytes@ == digest_bytes(value),
            bytes@.len() == 32,
            text@.len() == 2 * i,
            forall|k: int| 0 <= k < text@.len() ==> text@[k] == hex_text(bytes@)[k],
        decreases bytes@.len() - i,
    {
        let high: u8 = bytes[i] / 16;
        let low: u8 = bytes[i] % 16;
        text.push(if high < 10 { 48 + high } else { 87 + high });
        text.push(if low < 10 { 48 + low } else { 87 + low });
        i += 1;
    }
    assert(text@ =~= hex_text(bytes@));
    text
}

impl Digest {
    /// Whether this digest comes strictly before the other.
    pub open spec fn before_spec(self, other: Digest) -> bool {
        self.hi < other.hi || (self.hi == other.hi && self.lo < other.lo)
    }

    /// Whether this digest comes strictly before the other.
    pub fn before(&self, other: &Digest) -> (r: bool)
        ensures
            r == self.before_spec(*other),
    {
        self.hi < other.hi || (self.hi == other.hi && self.lo < other.lo)
    }
}

/// Identifies a source file.
#[derive(Clone, Copy, PartialEq, Eq, Structural, Debug, Hash, PartialOrd, Ord)]
pub struct FileId(pub Digest);

impl Identity for FileId {
    fn same(&self, other: &Self) -> (r: bool) {
        *self == *other
    }
}

/// Identifies a symbol definition.
#[derive(Clone, Copy, PartialEq, Eq, Structural, Debug, Hash, PartialOrd, Ord)]
pub struct SymbolId(pub Digest);

impl Identity for SymbolId {
    fn same(&self, other: &Self) -> (r: bool) {
        *self == *other
    }
}

/// Identifies a lexical scope.
#[derive(Clone, Copy, PartialEq, Eq, Structural, Debug, Hash, PartialOrd, Ord)]
pub struct ScopeId(pub Digest);

impl Identity for ScopeId {
    fn same(&self, other: &Self) -> (r: bool) {
        *self == *other
    }
}

/// Identifies a local binding.
#[derive(Clone, Copy, PartialEq, Eq, Structural, Debug, Hash, PartialOrd, Ord)]
pub struct BindingId(pub Digest);

impl Identity for BindingId {
    fn same(&self, other: &Self) -> (r: bool) {
        *self == *other
    }
}

/// Identifies a reference occurrence.
#[derive(Clone, Copy, PartialEq, Eq, Structural, Debug, Hash, PartialOrd, Ord)]
pub struct ReferenceId(pub Digest);

impl Identity for ReferenceId {
    fn same(&self, other: &Self) -> (r: bool) {
        *self == *other
    }
}

/// Identifies a call site.
#[derive(Clone, Copy, PartialEq, Eq, Structural, Debug, Hash, PartialOrd, Ord)]
pub struct CallsiteId(pub Digest);

impl Identity for CallsiteId {
    fn same(&self, other: &Self) -> (r: bool) {
        *self == *other
    }
}

/// Identifies a dataflow node.
#[derive(Clone, Copy, PartialEq, Eq, Structural, Debug, Hash, PartialOrd, Ord)]
pub struct DataNodeId(pub Digest);

impl Identity for DataNodeId {
    fn same(&self, other: &Self) -> (r: bool) {
        *self == *other
    }
}

/// Identifies a dataflow edge.
#[derive(Clone, Copy, PartialEq, Eq, Structural, Debug, Hash, PartialOrd, Ord)]
pub struct DataFlowEdgeId(pub Digest);

impl Identity for DataFlowEdgeId {
    fn same(&self, other: &Self) -> (r: bool) {
        *self == *other
    }
}

/// Identifies a control-flow node.
#[derive(Clone, Copy, PartialEq, Eq, Structural, Debug, Hash, PartialOrd, Ord)]
pub struct CfgNodeId(pub Digest);

impl Identity for CfgNodeId {
    fn same(&self, other: &Self) -> (r: bool) {
        *self == *other
    }
}

/// Identifies a control-flow edge.
#[derive(Clone, Copy, PartialEq, Eq, Structural, Debug, Hash, PartialOrd, Ord)]
pub struct CfgEdgeId(pub Digest);

impl Identity for CfgEdgeId {
    fn same(&self, other: &Self) -> (r: bool) {
        *self == *other
    }
}

/// Identifies a symbol graph edge.
#[derive(Clone, Copy, PartialEq, Eq, Structural, Debug, Hash, PartialOrd, Ord)]
pub struct EdgeId(pub Digest);

impl Identity for EdgeId {
    fn same(&self, other: &Self) -> (r: bool) {
        *self == *other
    }
}

} // verus!
