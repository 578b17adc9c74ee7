use vstd::prelude::*;

verus! {

/// A Unicode General_Category value, or a union of them: one bit per category.
pub type GeneralCategory = u32;

/// Set inclusion over bit sets.
pub trait BitSet: Sized {
    spec fn spec_subset_of(self, superset: Self) -> bool;

    fn subset_of(self, superset: Self) -> (r: bool)
        ensures
            r == self.spec_subset_of(superset),
    ;
}

impl BitSet for GeneralCategory {
    open spec fn spec_subset_of(self, superset: GeneralCategory) -> bool {
        self & superset == self
    }

    fn subset_of(self, superset: GeneralCategory) -> (r: bool) {
        (self & superset) == self
    }
}


// Bit positions of the categories, in the order of the Unicode property value aliases.
pub const LU: u32 = 0x00;
pub const LL: u32 = 0x01;
pub const LT: u32 = 0x02;
pub const LM: u32 = 0x03;
pub const LO: u32 = 0x04;
pub const MN: u32 = 0x05;
pub const MC: u32 = 0x06;
pub const ME: u32 = 0x07;
pub const ND: u32 = 0x08;
pub const NL: u32 = 0x09;
pub const NO: u32 = 0x0A;
pub const PC: u32 = 0x0B;
pub const PD: u32 = 0x0C;
pub const PS: u32 = 0x0D;
pub const PE: u32 = 0x0E;
pub const PI: u32 = 0x0F;
pub const PF: u32 = 0x10;
pub const PO: u32 = 0x11;
pub const SM: u32 = 0x12;
pub const SC: u32 = 0x13;
pub const SK: u32 = 0x14;
pub const SO: u32 = 0x15;
pub const ZS: u32 = 0x16;
pub const ZL: u32 = 0x17;
pub const ZP: u32 = 0x18;
pub const CC: u32 = 0x19;
pub const CF: u32 = 0x1A;
pub const CS: u32 = 0x1B;
pub const CO: u32 = 0x1C;
pub const CN: u32 = 0x1D;

pub const UPPERCASE_LETTER: GeneralCategory = 1 << LU;
pub const LOWERCASE_LETTER: GeneralCategory = 1 << LL;
pub const TITLECASE_LETTER: GeneralCategory = 1 << LT;
pub const MODIFIER_LETTER: GeneralCategory = 1 << LM;
pub const OTHER_LETTER: GeneralCategory = 1 << LO;
pub const CASED_LETTER: GeneralCategory = UPPERCASE_LETTER | LOWERCASE_LETTER | TITLECASE_LETTER;
pub const LETTER: GeneralCategory = CASED_LETTER | MODIFIER_LETTER | OTHER_LETTER;

pub const NONSPACING_MARK: GeneralCategory = 1 << MN;
pub const SPACING_MARK: GeneralCategory = 1 << MC;
pub const ENCLOSING_MARK: GeneralCategory = 1 << ME;
pub const MARK: GeneralCategory = NONSPACING_MARK | SPACING_MARK | ENCLOSING_MARK;

pub const DECIMAL_NUMBER: GeneralCategory = 1 << ND;
pub const LETTER_NUMBER: GeneralCategory = 1 << NL;
pub const OTHER_NUMBER: GeneralCategory = 1 << NO;
pub const NUMBER: GeneralCategory = DECIMAL_NUMBER | LETTER_NUMBER | OTHER_NUMBER;

pub const CONNECTOR_PUNCTUATION: GeneralCategory = 1 << PC;
pub const DASH_PUNCTUATION: GeneralCategory = 1 << PD;
pub const OPEN_PUNCTUATION: GeneralCategory = 1 << PS;
pub const CLOSE_PUNCTUATION: GeneralCategory = 1 << PE;
pub const INITIAL_PUNCTUATION: GeneralCategory = 1 << PI;
pub const FINAL_PUNCTUATION: GeneralCategory = 1 << PF;
pub const OTHER_PUNCTUATION: GeneralCategory = 1 << PO;
pub const PUNCTUATION: GeneralCategory = CONNECTOR_PUNCTUATION | DASH_PUNCTUATION
    | OPEN_PUNCTUATION | CLOSE_PUNCTUATION | INITIAL_PUNCTUATION | FINAL_PUNCTUATION
    | OTHER_PUNCTUATION;

pub const MATH_SYMBOL: GeneralCategory = 1 << SM;
pub const CURRENCY_SYMBOL: GeneralCategory = 1 << SC;
pub const MODIFIER_SYMBOL: GeneralCategory = 1 << SK;
pub const OTHER_SYMBOL: GeneralCategory = 1 << SO;
pub const SYMBOL: GeneralCategory = MATH_SYMBOL | CURRENCY_SYMBOL | MODIFIER_SYMBOL | OTHER_SYMBOL;

pub const SPACE_SEPERATOR: GeneralCategory = 1 << ZS;
pub const LINE_SEPERATOR: GeneralCategory = 1 << ZL;
pub const PARAGRAPH_SEPERATOR: GeneralCategory = 1 << ZP;
pub const SEPERATOR: GeneralCategory = SPACE_SEPERATOR | LINE_SEPERATOR | PARAGRAPH_SEPERATOR;

pub const CONTROL: GeneralCategory = 1 << CC;
pub const FORMAT: GeneralCategory = 1 << CF;
pub const SURROGATE: GeneralCategory = 1 << CS;
pub const PRIVATE_USE: GeneralCategory = 1 << CO;
pub const UNASSIGNED: GeneralCategory = 1 << CN;
pub const OTHER: GeneralCategory = CONTROL | FORMAT | SURROGATE | PRIVATE_USE | UNASSIGNED;

/// Each category lies in the union of its group, and the cased letters in
/// the letters.
pub proof fn lemma_unions_nest()
    ensures
        UPPERCASE_LETTER.spec_subset_of(CASED_LETTER),
        LOWERCASE_LETTER.spec_subset_of(CASED_LETTER),
        TITLECASE_LETTER.spec_subset_of(CASED_LETTER),
        CASED_LETTER.spec_subset_of(LETTER),
        MODIFIER_LETTER.spec_subset_of(LETTER),
        OTHER_LETTER.spec_subset_of(LETTER),
        NONSPACING_MARK.spec_subset_of(MARK),
        SPACING_MARK.spec_subset_of(MARK),
        ENCLOSING_MARK.spec_subset_of(MARK),
        DECIMAL_NUMBER.spec_subset_of(NUMBER),
        LETTER_NUMBER.spec_subset_of(NUMBER),
        OTHER_NUMBER.spec_subset_of(NUMBER),
        CONNECTOR_PUNCTUATION.spec_subset_of(PUNCTUATION),
        DASH_PUNCTUATION.spec_subset_of(PUNCTUATION),
        OPEN_PUNCTUATION.spec_subset_of(PUNCTUATION),
        CLOSE_PUNCTUATION.spec_subset_of(PUNCTUATION),
        INITIAL_PUNCTUATION.spec_subset_of(PUNCTUATION),
        FINAL_PUNCTUATION.spec_subset_of(PUNCTUATION),
        OTHER_PUNCTUATION.spec_subset_of(PUNCTUATION),
        MATH_SYMBOL.spec_subset_of(SYMBOL),
        CURRENCY_SYMBOL.spec_subset_of(SYMBOL),
        MODIFIER_SYMBOL.spec_subset_of(SYMBOL),
        OTHER_SYMBOL.spec_subset_of(SYMBOL),
        SPACE_SEPERATOR.spec_subset_of(SEPERATOR),
        LINE_SEPERATOR.spec_subset_of(SEPERATOR),
        PARAGRAPH_SEPERATOR.spec_subset_of(SEPERATOR),
        CONTROL.spec_subset_of(OTHER),
        FORMAT.spec_subset_of(OTHER),
        SURROGATE.spec_subset_of(OTHER),
        PRIVATE_USE.spec_subset_of(OTHER),
        UNASSIGNED.spec_subset_of(OTHER),
        !LETTER.spec_subset_of(CASED_LETTER),
{
    assert(UPPERCASE_LETTER & CASED_LETTER == UPPERCASE_LETTER) by (bit_vector);
    assert(LOWERCASE_LETTER & CASED_LETTER == LOWERCASE_LETTER) by (bit_vector);
    assert(TITLECASE_LETTER & CASED_LETTER == TITLECASE_LETTER) by (bit_vector);
    assert(CASED_LETTER & LETTER == CASED_LETTER) by (bit_vector);
    assert(MODIFIER_LETTER & LETTER == MODIFIER_LETTER) by (bit_vector);
    assert(OTHER_LETTER & LETTER == OTHER_LETTER) by (bit_vector);
    assert(NONSPACING_MARK & MARK == NONSPACING_MARK) by (bit_vector);
    assert(SPACING_MARK & MARK == SPACING_MARK) by (bit_vector);
    assert(ENCLOSING_MARK & MARK == ENCLOSING_MARK) by (bit_vector);
    assert(DECIMAL_NUMBER & NUMBER == DECIMAL_NUMBER) by (bit_vector);
    assert(LETTER_NUMBER & NUMBER == LETTER_NUMBER) by (bit_vector);
    assert(OTHER_NUMBER & NUMBER == OTHER_NUMBER) by (bit_vector);
    assert(CONNECTOR_PUNCTUATION & PUNCTUATION == CONNECTOR_PUNCTUATION) by (bit_vector);
    assert(DASH_PUNCTUATION & PUNCTUATION == DASH_PUNCTUATION) by (bit_vector);
    assert(OPEN_PUNCTUATION & PUNCTUATION == OPEN_PUNCTUATION) by (bit_vector);
    assert(CLOSE_PUNCTUATION & PUNCTUATION == CLOSE_PUNCTUATION) by (bit_vector);
    assert(INITIAL_PUNCTUATION & PUNCTUATION == INITIAL_PUNCTUATION) by (bit_vector);
    assert(FINAL_PUNCTUATION & PUNCTUATION == FINAL_PUNCTUATION) by (bit_vector);
    assert(OTHER_PUNCTUATION & PUNCTUATION == OTHER_PUNCTUATION) by (bit_vector);
    assert(MATH_SYMBOL & SYMBOL == MATH_SYMBOL) by (bit_vector);
    assert(CURRENCY_SYMBOL & SYMBOL == CURRENCY_SYMBOL) by (bit_vector);
    assert(MODIFIER_SYMBOL & SYMBOL == MODIFIER_SYMBOL) by (bit_vector);
    assert(OTHER_SYMBOL & SYMBOL == OTHER_SYMBOL) by (bit_vector);
    assert(SPACE_SEPERATOR & SEPERATOR == SPACE_SEPERATOR) by (bit_vector);
    assert(LINE_SEPERATOR & SEPERATOR == LINE_SEPERATOR) by (bit_vector);
    assert(PARAGRAPH_SEPERATOR & SEPERATOR == PARAGRAPH_SEPERATOR) by (bit_vector);
    assert(CONTROL & OTHER == CONTROL) by (bit_vector);
    assert(FORMAT & OTHER == FORMAT) by (bit_vector);
    assert(SURROGATE & OTHER == SURROGATE) by (bit_vector);
    assert(PRIVATE_USE & OTHER == PRIVATE_USE) by (bit_vector);
    assert(UNASSIGNED & OTHER == UNASSIGNED) by (bit_vector);
    assert(LETTER & CASED_LETTER != LETTER) by (bit_vector);
}

/// The bit position of the General_Category of an ASCII character.
pub open spec fn ascii_category_index(b: u8) -> u32
    recommends
        b < 0x80,
{
    if b <= 0x1F || b == 0x7F {
        CC
    } else if b == 0x20 {
        ZS
    } else if b == 0x24 {
        SC
    } else if b == 0x28 || b == 0x5B || b == 0x7B {
        PS
    } else if b == 0x29 || b == 0x5D || b == 0x7D {
        PE
    } else if b == 0x2B || (0x3C <= b <= 0x3E) || b == 0x7C || b == 0x7E {
        SM
    } else if b == 0x2D {
        PD
    } else if 0x30 <= b <= 0x39 {
        ND
    } else if 0x41 <= b <= 0x5A {
        LU
    } else if b == 0x5E || b == 0x60 {
        SK
    } else if b == 0x5F {
        PC
    } else if 0x61 <= b <= 0x7A {
        LL
    } else {
        PO
    }
}

/// The General_Category of an ASCII character, read from a direct table.
pub fn ascii_category(b: u8) -> (r: GeneralCategory)
    requires
        b < 0x80,
    ensures
        r == 1u32 << ascii_category_index(b),
{
    let i: u32 = if b <= 0x1F || b == 0x7F {
        CC
    } else if b == 0x20 {
        ZS
    } else if b == 0x24 {
        SC
    } else if b == 0x28 || b == 0x5B || b == 0x7B {
        PS
    } else if b == 0x29 || b == 0x5D || b == 0x7D {
        PE
    } else if b == 0x2B || (0x3C <= b && b <= 0x3E) || b == 0x7C || b == 0x7E {
        SM
    } else if b == 0x2D {
        PD
    } else if 0x30 <= b && b <= 0x39 {
        ND
    } else if 0x41 <= b && b <= 0x5A {
        LU
    } else if b == 0x5E || b == 0x60 {
        SK
    } else if b == 0x5F {
        PC
    } else if 0x61 <= b && b <= 0x7A {
        LL
    } else {
        PO
    };
    1u32 << i
}

} // verus!
