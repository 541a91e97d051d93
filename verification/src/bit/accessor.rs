//! Access to the individual bits of a primitive word, and the view of a
//! container as an ordered sequence of such words.
use vstd::prelude::*;

verus! {

/// Access to bit-level data of one fixed-width word.
///
/// Bit indexing is least-significant-bit first: index 0 is the value `1`,
/// index 1 is `2`, and so on. Every implementor has a fixed, positive bit
/// width, and `bit` may only be asked for an index below that width. Signed
/// integers expose the bits of their two's-complement pattern.
pub trait BitAccessor: Sized {
    /// The width of the word, in bits.
    spec fn width() -> nat;

    /// Whether bit `i` of the word is set, least-significant-bit first.
    spec fn spec_bit(self, i: int) -> bool;

    /// Every word has at least one bit.
    proof fn lemma_width_pos()
        ensures
            Self::width() > 0,
    ;

    /// The width of the word, in bits.
    fn bit_width() -> (w: usize)
        ensures
            w == Self::width(),
    ;

    /// Whether bit `idx` of the word is set, least-significant-bit first.
    fn bit(&self, idx: usize) -> (b: bool)
        requires
            idx < Self::width(),
        ensures
            b == self.spec_bit(idx as int),
    ;
}

impl BitAccessor for bool {
    open spec fn width() -> nat {
        1
    }

    open spec fn spec_bit(self, i: int) -> bool {
        i == 0 && self
    }

    proof fn lemma_width_pos() {
    }

    fn bit_width() -> (w: usize) {
        1
    }

    fn bit(&self, idx: usize) -> (b: bool) {
        idx == 0 && *self
    }
}

impl BitAccessor for u8 {
    open spec fn width() -> nat {
        8
    }

    open spec fn spec_bit(self, i: int) -> bool {
        (self >> (i as usize)) & 1 == 1
    }

    proof fn lemma_width_pos() {
    }

    fn bit_width() -> (w: usize) {
        8
    }

    fn bit(&self, idx: usize) -> (b: bool) {
        (*self >> idx) & 1 == 1
    }
}

impl BitAccessor for u16 {
    open spec fn width() -> nat {
        16
    }

    open spec fn spec_bit(self, i: int) -> bool {
        (self >> (i as usize)) & 1 == 1
    }

    proof fn lemma_width_pos() {
    }

    fn bit_width() -> (w: usize) {
        16
    }

    fn bit(&self, idx: usize) -> (b: bool) {
        (*self >> idx) & 1 == 1
    }
}

impl BitAccessor for u32 {
    open spec fn width() -> nat {
        32
    }

    open spec fn spec_bit(self, i: int) -> bool {
        (self >> (i as usize)) & 1 == 1
    }

    proof fn lemma_width_pos() {
    }

    fn bit_width() -> (w: usize) {
        32
    }

    fn bit(&self, idx: usize) -> (b: bool) {
        (*self >> idx) & 1 == 1
    }
}

impl BitAccessor for u64 {
    open spec fn width() -> nat {
        64
    }

    open spec fn spec_bit(self, i: int) -> bool {
        (self >> (i as usize)) & 1 == 1
    }

    proof fn lemma_width_pos() {
    }

    fn bit_width() -> (w: usize) {
        64
    }

    fn bit(&self, idx: usize) -> (b: bool) {
        (*self >> idx) & 1 == 1
    }
}

impl BitAccessor for u128 {
    open spec fn width() -> nat {
        128
    }

    open spec fn spec_bit(self, i: int) -> bool {
        (self >> (i as usize)) & 1 == 1
    }

    proof fn lemma_width_pos() {
    }

    fn bit_width() -> (w: usize) {
        128
    }

    fn bit(&self, idx: usize) -> (b: bool) {
        (*self >> idx) & 1 == 1
    }
}

impl BitAccessor for usize {
    open spec fn width() -> nat {
        usize::BITS as nat
    }

    open spec fn spec_bit(self, i: int) -> bool {
        (self >> (i as usize)) & 1 == 1
    }

    proof fn lemma_width_pos() {
    }

    fn bit_width() -> (w: usize) {
        usize::BITS as usize
    }

    fn bit(&self, idx: usize) -> (b: bool) {
        (*self >> idx) & 1 == 1
    }
}

impl BitAccessor for isize {
    open spec fn width() -> nat {
        isize::BITS as nat
    }

    open spec fn spec_bit(self, i: int) -> bool {
        ((self as usize) >> (i as usize)) & 1 == 1
    }

    proof fn lemma_width_pos() {
    }

    fn bit_width() -> (w: usize) {
        isize::BITS as usize
    }

    fn bit(&self, idx: usize) -> (b: bool) {
        ((*self as usize) >> idx) & 1 == 1
    }
}

impl BitAccessor for i8 {
    open spec fn width() -> nat {
        8
    }

    open spec fn spec_bit(self, i: int) -> bool {
        ((self as u8) >> (i as usize)) & 1 == 1
    }

    proof fn lemma_width_pos() {
    }

    fn bit_width() -> (w: usize) {
        8
    }

    fn bit(&self, idx: usize) -> (b: bool) {
        ((*self as u8) >> idx) & 1 == 1
    }
}

impl BitAccessor for i16 {
    open spec fn width() -> nat {
        16
    }

    open spec fn spec_bit(self, i: int) -> bool {
        ((self as u16) >> (i as usize)) & 1 == 1
    }

    proof fn lemma_width_pos() {
    }

    fn bit_width() -> (w: usize) {
        16
    }

    fn bit(&self, idx: usize) -> (b: bool) {
        ((*self as u16) >> idx) & 1 == 1
    }
}

impl BitAccessor for i32 {
    open spec fn width() -> nat {
        32
    }

    open spec fn spec_bit(self, i: int) -> bool {
        ((self as u32) >> (i as usize)) & 1 == 1
    }

    proof fn lemma_width_pos() {
    }

    fn bit_width() -> (w: usize) {
        32
    }

    fn bit(&self, idx: usize) -> (b: bool) {
        ((*self as u32) >> idx) & 1 == 1
    }
}

impl BitAccessor for i64 {
    open spec fn width() -> nat {
        64
    }

    open spec fn spec_bit(self, i: int) -> bool {
        ((self as u64) >> (i as usize)) & 1 == 1
    }

    proof fn lemma_width_pos() {
    }

    fn bit_width() -> (w: usize) {
        64
    }

    fn bit(&self, idx: usize) -> (b: bool) {
        ((*self as u64) >> idx) & 1 == 1
    }
}

impl BitAccessor for i128 {
    open spec fn width() -> nat {
        128
    }

    open spec fn spec_bit(self, i: int) -> bool {
        ((self as u128) >> (i as usize)) & 1 == 1
    }

    proof fn lemma_width_pos() {
    }

    fn bit_width() -> (w: usize) {
        128
    }

    fn bit(&self, idx: usize) -> (b: bool) {
        ((*self as u128) >> idx) & 1 == 1
    }
}

/// The view of a container as a borrowed, ordered sequence of accessor
/// words. Adaptation is total and copies nothing; only reads over the
/// adapted sequence can fail.
pub trait BitAdapter {
    /// The word type the container is made of.
    type Accessor;

    /// The ordered word sequence the container stands for.
    spec fn words(&self) -> Seq<Self::Accessor>;

    /// The container's words, as a borrowed slice.
    fn accessor(&self) -> (s: &[Self::Accessor])
        ensures
            s@ == self.words(),
    ;
}

impl<W, const N: usize> BitAdapter for [W; N] {
    type Accessor = W;

    open spec fn words(&self) -> Seq<W> {
        self@
    }

    fn accessor(&self) -> (s: &[W]) {
        self.as_slice()
    }
}

impl<W> BitAdapter for &[W] {
    type Accessor = W;

    open spec fn words(&self) -> Seq<W> {
        self@
    }

    fn accessor(&self) -> (s: &[W]) {
        self
    }
}

impl<W> BitAdapter for Vec<W> {
    type Accessor = W;

    open spec fn words(&self) -> Seq<W> {
        self@
    }

    fn accessor(&self) -> (s: &[W]) {
        self.as_slice()
    }
}

impl BitAdapter for &str {
    type Accessor = u8;

    open spec fn words(&self) -> Seq<u8> {
        vstd::utf8::encode_utf8(self@)
    }

    fn accessor(&self) -> (s: &[u8]) {
        self.as_bytes()
    }
}

impl BitAdapter for String {
    type Accessor = u8;

    open spec fn words(&self) -> Seq<u8> {
        vstd::utf8::encode_utf8(self@)
    }

    fn accessor(&self) -> (s: &[u8]) {
        self.as_str().as_bytes()
    }
}

} // verus!
