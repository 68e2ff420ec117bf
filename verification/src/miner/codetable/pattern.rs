use vstd::prelude::*;

verus! {

/// The position `i` of a packed template, read out of its raw bytes:
/// `Some(bit)` for a concrete position, `None` for a wildcard ("gap").
///
/// Positions are packed two bits per position, four positions per byte,
/// most significant pair first: within each pair the high bit is the
/// concrete bit value and the low bit is the mask (set means concrete,
/// clear means wildcard).
pub open spec fn position(mb: Seq<u8>, i: int) -> Option<bool>
    recommends
        0 <= i,
        i / 4 < mb.len(),
{
    if mb[i / 4] & (0x40u8 >> (((i % 4) * 2) as u8)) != 0 {
        Some(mb[i / 4] & (0x80u8 >> (((i % 4) * 2) as u8)) != 0)
    } else {
        None
    }
}

/// Lexicographic order on raw byte sequences, compared from index `i` on.
pub open spec fn lex_le_from(a: Seq<u8>, b: Seq<u8>, i: int) -> bool
    decreases a.len() - i,
{
    if i < 0 || i >= a.len() {
        true
    } else if i >= b.len() {
        false
    } else if a[i] != b[i] {
        a[i] < b[i]
    } else {
        lex_le_from(a, b, i + 1)
    }
}

/// Lexicographic order on raw byte sequences.
pub open spec fn lex_le(a: Seq<u8>, b: Seq<u8>) -> bool {
    lex_le_from(a, b, 0)
}

/// A bit template: a fixed number of positions, each either a concrete
/// bit or a wildcard that matches any data bit but still occupies one
/// position of length.
///
/// Patterns are value types: equality is by raw packed bytes plus length.
#[derive(Eq, Hash, Clone, Debug)]
pub struct Pattern {
    masked_bits: Vec<u8>,
    length: usize,
}

impl View for Pattern {
    type V = Seq<Option<bool>>;

    /// A pattern denotes the sequence of its positions.
    closed spec fn view(&self) -> Seq<Option<bool>> {
        Seq::new(self.length as nat, |i: int| position(self.masked_bits@, i))
    }
}

impl Pattern {
    /// Every declared position is addressable in the packed bytes.
    pub closed spec fn wf(&self) -> bool {
        self.length <= 4 * self.masked_bits@.len()
    }

    /// The raw packed bytes, which define equality and the tie-break order.
    pub closed spec fn bytes(&self) -> Seq<u8> {
        self.masked_bits@
    }

    /// Structural pattern identity: same raw bytes and same length.
    pub closed spec fn key_eq(&self, other: &Pattern) -> bool {
        self.masked_bits@ == other.masked_bits@ && self.length == other.length
    }

    /// Builds a pattern from packed bytes and a declared position count.
    /// The bytes must be able to address every declared position.
    pub fn new(masked_bits: Vec<u8>, length: usize) -> (p: Pattern)
        requires
            length <= 4 * masked_bits@.len(),
        ensures
            p.wf(),
            p.bytes() == masked_bits@,
            p@.len() == length,
            p@ == Seq::new(length as nat, |i: int| position(masked_bits@, i)),
    {
        Pattern { masked_bits, length }
    }

    /// The singleton pattern matching a single clear bit.
    pub fn zero() -> (p: Pattern)
        ensures
            is_zero_singleton(p),
            p.bytes() == seq![0x40u8],
            p@.len() == 1,
    {
        let p = Pattern { masked_bits: vec![0x40u8], length: 1 };
        proof {
            assert(0x40u8 & (0x40u8 >> 0u8) != 0) by (bit_vector);
            assert(0x40u8 & (0x80u8 >> 0u8) == 0) by (bit_vector);
            assert(p@ =~= seq![Some(false)]);
            assert(p.bytes() =~= seq![0x40u8]);
        }
        p
    }

    /// The singleton pattern matching a single set bit.
    pub fn one() -> (p: Pattern)
        ensures
            is_one_singleton(p),
            p.bytes() == seq![0xC0u8],
            p@.len() == 1,
    {
        let p = Pattern { masked_bits: vec![0xC0u8], length: 1 };
        proof {
            assert(0xC0u8 & (0x40u8 >> 0u8) != 0) by (bit_vector);
            assert(0xC0u8 & (0x80u8 >> 0u8) != 0) by (bit_vector);
            assert(p@ =~= seq![Some(true)]);
            assert(p.bytes() =~= seq![0xC0u8]);
        }
        p
    }

    /// Reads position `index`: `Some(bit)` for a concrete position, `None`
    /// for a wildcard. Positions at or past the length may not be asked for.
    pub fn get(&self, index: usize) -> (r: Option<bool>)
        requires
            self.wf(),
            index < self@.len(),
        ensures
            r == self@[index as int],
    {
        let byte = self.masked_bits[index / 4];
        let sh: u8 = (((index % 4) * 2)) as u8;
        if byte & (0x40u8 >> sh) != 0 {
            Some(byte & (0x80u8 >> sh) != 0)
        } else {
            None
        }
    }

    /// The number of positions, wildcards included.
    pub fn len(&self) -> (n: usize)
        ensures
            n == self@.len(),
    {
        self.length
    }

    /// The raw packed byte at `index`.
    pub fn byte_at(&self, index: usize) -> (b: u8)
        requires
            index < self.bytes().len(),
        ensures
            b == self.bytes()[index as int],
    {
        self.masked_bits[index]
    }

    /// The number of raw packed bytes.
    pub fn byte_len(&self) -> (n: usize)
        ensures
            n == self.bytes().len(),
    {
        self.masked_bits.len()
    }

    /// A new pattern holding `self`'s positions followed by `other`'s
    /// positions; its length is the sum of both lengths. Used to build
    /// longer candidate patterns out of shorter ones.
    pub fn concat(&self, other: &Pattern) -> (r: Pattern)
        requires
            self.wf(),
            other.wf(),
            self@.len() + other@.len() <= usize::MAX - 3,
        ensures
            r.wf(),
            r@ == self@ + other@,
    {
        let n1 = self.length;
        let n2 = other.length;
        let total = n1 + n2;
        let nbytes = (total + 3) / 4;
        let mut mb: Vec<u8> = Vec::new();
        let mut z: usize = 0;
        while z < nbytes
            invariant
                z <= nbytes,
                mb@.len() == z,
                forall|j: int| 0 <= j < z ==> mb@[j] == 0u8,
            decreases nbytes - z,
        {
            mb.push(0u8);
            z += 1;
        }
        proof {
            assert(4 * nbytes >= total);
            assert forall|k: int| 0 <= k < 4 * (nbytes as int) implies slot_clear(mb@, k) by {
                lemma_zero_shift(((k % 4) * 2) as u8);
            }
        }
        let mut i: usize = 0;
        while i < total
            invariant
                i <= total,
                total == n1 + n2,
                n1 == self@.len(),
                n2 == other@.len(),
                self.wf(),
                other.wf(),
                mb@.len() == nbytes,
                4 * nbytes >= total,
                forall|k: int|
                    0 <= k < i ==> position(mb@, k) == (if k < n1 {
                        self@[k]
                    } else {
                        other@[k - n1]
                    }),
                forall|k: int| i <= k < 4 * (nbytes as int) ==> #[trigger] slot_clear(mb@, k),
            decreases total - i,
        {
            let slot = i / 4;
            let sh: u8 = ((i % 4) * 2) as u8;
            let pos = if i < n1 {
                self.get(i)
            } else {
                other.get(i - n1)
            };
            let add: u8 = match pos {
                Some(true) => 0xC0u8 >> sh,
                Some(false) => 0x40u8 >> sh,
                None => 0u8,
            };
            let ghost prev = mb@;
            let b_old = mb[slot];
            mb.set(slot, b_old | add);
            proof {
                let newm = mb@;
                assert(slot_clear(prev, i as int));
                assert(b_old & (0xC0u8 >> sh) == 0);
                lemma_zero_shift(sh);
                match pos {
                    Some(true) => lemma_write_concrete_true(b_old, sh),
                    Some(false) => lemma_write_concrete_false(b_old, sh),
                    None => lemma_clear_byte_slot_parts(b_old, sh),
                }
                assert(add == add_mask(pos) >> sh);
                assert(newm[i as int / 4] == b_old | add);
                assert(position(newm, i as int) == pos);
                assert forall|k: int|
                    #![trigger position(newm, k)]
                    #![trigger slot_clear(newm, k)]
                    0 <= k < 4 * (nbytes as int) && k != i as int implies position(newm, k)
                    == position(prev, k) && (slot_clear(prev, k) ==> slot_clear(newm, k)) by {
                    if k / 4 == slot as int {
                        assert(k == 4 * (k / 4) + k % 4);
                        assert(i as int == 4 * (slot as int) + (i as int) % 4);
                        lemma_write_other_slot(b_old, add_mask(pos), sh, ((k % 4) * 2) as u8);
                    } else {
                        assert(newm[k / 4] == prev[k / 4]);
                    }
                }
            }
            i += 1;
        }
        let r = Pattern { masked_bits: mb, length: total };
        proof {
            assert(r@ =~= self@ + other@);
        }
        r
    }

    /// Whether `self` comes no later than `other` in the table order:
    /// longer patterns first, ties broken lexicographically on raw bytes.
    pub fn order_le(&self, other: &Pattern) -> (r: bool)
        ensures
            r == pat_le(*self, *other),
    {
        if self.length > other.length {
            true
        } else if self.length < other.length {
            false
        } else {
            lex_le_bytes(&self.masked_bits, &other.masked_bits)
        }
    }
}

/// The packed two-bit contribution of one position before shifting into
/// its slot: value and mask bits for a concrete position, nothing for a
/// wildcard.
pub open spec fn add_mask(pos: Option<bool>) -> u8 {
    match pos {
        Some(true) => 0xC0u8,
        Some(false) => 0x40u8,
        None => 0u8,
    }
}

/// Whether the packed slot holding position `k` is still all clear.
pub open spec fn slot_clear(mb: Seq<u8>, k: int) -> bool {
    mb[k / 4] & (0xC0u8 >> (((k % 4) * 2) as u8)) == 0
}

proof fn lemma_zero_shift(sh: u8)
    by (bit_vector)
    requires
        sh <= 6,
    ensures
        0u8 >> sh == 0u8,
        0u8 & (0xC0u8 >> sh) == 0,
{
}

proof fn lemma_clear_byte_slot_parts(b: u8, sh: u8)
    by (bit_vector)
    requires
        sh <= 6,
        b & (0xC0u8 >> sh) == 0,
    ensures
        b | 0u8 == b,
        b & (0x40u8 >> sh) == 0,
        b & (0x80u8 >> sh) == 0,
{
}

proof fn lemma_write_concrete_true(b: u8, sh: u8)
    by (bit_vector)
    requires
        sh <= 6,
        b & (0xC0u8 >> sh) == 0,
    ensures
        (b | (0xC0u8 >> sh)) & (0x40u8 >> sh) != 0,
        (b | (0xC0u8 >> sh)) & (0x80u8 >> sh) != 0,
{
}

proof fn lemma_write_concrete_false(b: u8, sh: u8)
    by (bit_vector)
    requires
        sh <= 6,
        b & (0xC0u8 >> sh) == 0,
    ensures
        (b | (0x40u8 >> sh)) & (0x40u8 >> sh) != 0,
        (b | (0x40u8 >> sh)) & (0x80u8 >> sh) == 0,
{
}

proof fn lemma_write_other_slot(b: u8, m: u8, sh1: u8, sh2: u8)
    by (bit_vector)
    requires
        sh1 <= 6,
        sh2 <= 6,
        sh1 % 2 == 0,
        sh2 % 2 == 0,
        sh1 != sh2,
        m == 0xC0u8 || m == 0x40u8 || m == 0u8,
    ensures
        (b | (m >> sh1)) & (0x40u8 >> sh2) == b & (0x40u8 >> sh2),
        (b | (m >> sh1)) & (0x80u8 >> sh2) == b & (0x80u8 >> sh2),
        (b | (m >> sh1)) & (0xC0u8 >> sh2) == b & (0xC0u8 >> sh2),
{
}

/// The table order: longer patterns first; equal lengths are tie-broken by
/// the lexicographic order of their packed byte encoding.
pub open spec fn pat_le(a: Pattern, b: Pattern) -> bool {
    ||| a@.len() > b@.len()
    ||| (a@.len() == b@.len() && lex_le(a.bytes(), b.bytes()))
}

/// A well-formed length-1 pattern whose single position asks for a clear bit.
pub open spec fn is_zero_singleton(p: Pattern) -> bool {
    p.wf() && p@ == seq![Some(false)]
}

/// A well-formed length-1 pattern whose single position asks for a set bit.
pub open spec fn is_one_singleton(p: Pattern) -> bool {
    p.wf() && p@ == seq![Some(true)]
}

/// Structurally equal patterns denote the same position sequence and are
/// equally well formed.
pub proof fn lemma_key_eq_same_view(a: &Pattern, b: &Pattern)
    requires
        a.key_eq(b),
    ensures
        a@ == b@,
        a.wf() == b.wf(),
        a.bytes() == b.bytes(),
    {
        assert(a@ =~= b@);
    }

fn lex_le_bytes(a: &Vec<u8>, b: &Vec<u8>) -> (r: bool)
    ensures
        r == lex_le(a@, b@),
{
    let n = if a.len() < b.len() { a.len() } else { b.len() };
    let mut i: usize = 0;
    while i < n
        invariant
            i <= n,
            n == if a@.len() < b@.len() { a@.len() } else { b@.len() },
            lex_le(a@, b@) == lex_le_from(a@, b@, i as int),
        decreases n - i,
    {
        if a[i] < b[i] {
            return true;
        }
        if a[i] > b[i] {
            return false;
        }
        i += 1;
    }
    a.len() <= b.len()
}

/// The lexicographic order is total.
pub proof fn lemma_lex_le_total(a: Seq<u8>, b: Seq<u8>)
    ensures
        lex_le(a, b) || lex_le(b, a),
{
    lemma_lex_le_from_total(a, b, 0);
}

proof fn lemma_lex_le_from_total(a: Seq<u8>, b: Seq<u8>, i: int)
    ensures
        lex_le_from(a, b, i) || lex_le_from(b, a, i),
    decreases a.len() - i,
{
    if 0 <= i && i < a.len() && i < b.len() && a[i] == b[i] {
        lemma_lex_le_from_total(a, b, i + 1);
    }
}

/// The lexicographic order is transitive.
pub proof fn lemma_lex_le_trans(a: Seq<u8>, b: Seq<u8>, c: Seq<u8>)
    requires
        lex_le(a, b),
        lex_le(b, c),
    ensures
        lex_le(a, c),
{
    lemma_lex_le_from_trans(a, b, c, 0);
}

proof fn lemma_lex_le_from_trans(a: Seq<u8>, b: Seq<u8>, c: Seq<u8>, i: int)
    requires
        lex_le_from(a, b, i),
        lex_le_from(b, c, i),
    ensures
        lex_le_from(a, c, i),
    decreases a.len() - i,
{
    if 0 <= i && i < a.len() && i < b.len() && i < c.len() && a[i] == b[i] && b[i] == c[i] {
        lemma_lex_le_from_trans(a, b, c, i + 1);
    }
}

/// The table order is total.
pub proof fn lemma_pat_le_total(a: Pattern, b: Pattern)
    ensures
        pat_le(a, b) || pat_le(b, a),
{
    if a@.len() == b@.len() {
        lemma_lex_le_total(a.bytes(), b.bytes());
    }
}

/// The table order is transitive.
pub proof fn lemma_pat_le_trans(a: Pattern, b: Pattern, c: Pattern)
    requires
        pat_le(a, b),
        pat_le(b, c),
    ensures
        pat_le(a, c),
{
    if a@.len() == b@.len() && b@.len() == c@.len() {
        lemma_lex_le_trans(a.bytes(), b.bytes(), c.bytes());
    }
}

impl PartialEq for Pattern {
    /// Full structural equality: raw packed bytes plus length.
    fn eq(&self, other: &Pattern) -> (r: bool) {
        if self.length != other.length {
            return false;
        }
        if self.masked_bits.len() != other.masked_bits.len() {
            return false;
        }
        let mut i: usize = 0;
        while i < self.masked_bits.len()
            invariant
                i <= self.masked_bits@.len(),
                self.masked_bits@.len() == other.masked_bits@.len(),
                self.length == other.length,
                forall|k: int| 0 <= k < i ==> self.masked_bits@[k] == other.masked_bits@[k],
            decreases self.masked_bits@.len() - i,
        {
            if self.masked_bits[i] != other.masked_bits[i] {
                return false;
            }
            i += 1;
        }
        proof {
            assert(self.masked_bits@ =~= other.masked_bits@);
        }
        true
    }
}

impl vstd::std_specs::cmp::PartialEqSpecImpl for Pattern {
    open spec fn obeys_eq_spec() -> bool {
        true
    }

    open spec fn eq_spec(&self, other: &Pattern) -> bool {
        self.key_eq(other)
    }
}

} // verus!
