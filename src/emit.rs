use vstd::prelude::*;

use crate::tables::{IntWidth, PropertyTables};

verus! {

/// The widest that a line of emitted numbers gets, in characters.
pub const LINE_WIDTH: usize = 100;

pub open spec fn digit_text(d: u64) -> Seq<char> {
    if d == 0 {
        "0"@
    } else if d == 1 {
        "1"@
    } else if d == 2 {
        "2"@
    } else if d == 3 {
        "3"@
    } else if d == 4 {
        "4"@
    } else if d == 5 {
        "5"@
    } else if d == 6 {
        "6"@
    } else if d == 7 {
        "7"@
    } else if d == 8 {
        "8"@
    } else {
        "9"@
    }
}

/// The decimal digits of `n`.
pub open spec fn decimal(n: u64) -> Seq<char>
    decreases n,
{
    if n < 10 {
        digit_text(n)
    } else {
        decimal(n / 10) + digit_text(n % 10)
    }
}

/// One entry of an emitted array: the number and a comma.
pub open spec fn entry_text(n: u64) -> Seq<char> {
    decimal(n) + ","@
}

/// Numbers as array entries, a line break before any entry that would take
/// the line past `LINE_WIDTH`; `w` is the width of the line so far.
pub open spec fn number_lines(nums: Seq<u64>, w: int) -> Seq<char>
    decreases nums.len(),
{
    if nums.len() == 0 {
        Seq::empty()
    } else {
        let s = entry_text(nums[0]);
        if w + s.len() > LINE_WIDTH {
            "\n"@ + s + number_lines(nums.drop_first(), s.len() as int)
        } else {
            s + number_lines(nums.drop_first(), w + s.len())
        }
    }
}

pub open spec fn width_name(w: IntWidth) -> Seq<char> {
    match w {
        IntWidth::U8 => "u8"@,
        IntWidth::U16 => "u16"@,
        IntWidth::U32 => "u32"@,
        IntWidth::U64 => "u64"@,
    }
}

/// The tables as Rust source: `<name>_VALUES` in the width of the values,
/// then `<name>_INDEX` in the width of the index entries.
pub open spec fn tables_text(t: &PropertyTables, name: Seq<char>) -> Seq<char> {
    "pub const "@ + name + "_VALUES: &["@ + width_name(t.value_type) + "] = &[\n"@ + number_lines(
        t.values@,
        0,
    ) + "\n];\n\n"@ + "pub const "@ + name + "_INDEX: &["@ + width_name(t.index_type) + "] = &[\n"@
        + number_lines(t.index@, 0) + "\n];\n"@
}

proof fn lemma_digit_len(d: u64)
    ensures
        digit_text(d).len() == 1,
{
    reveal_strlit("0");
    reveal_strlit("1");
    reveal_strlit("2");
    reveal_strlit("3");
    reveal_strlit("4");
    reveal_strlit("5");
    reveal_strlit("6");
    reveal_strlit("7");
    reveal_strlit("8");
    reveal_strlit("9");
}

fn digit(d: u64) -> (r: &'static str)
    requires
        d < 10,
    ensures
        r@ == digit_text(d),
{
    if d == 0 {
        "0"
    } else if d == 1 {
        "1"
    } else if d == 2 {
        "2"
    } else if d == 3 {
        "3"
    } else if d == 4 {
        "4"
    } else if d == 5 {
        "5"
    } else if d == 6 {
        "6"
    } else if d == 7 {
        "7"
    } else if d == 8 {
        "8"
    } else {
        "9"
    }
}

fn append_decimal(out: &mut String, n: u64)
    ensures
        final(out)@ == old(out)@ + decimal(n),
    decreases n,
{
    if n >= 10 {
        append_decimal(out, n / 10);
    }
    out.append(digit(n % 10));
    proof {
        if n >= 10 {
            assert(final(out)@ =~= old(out)@ + decimal(n));
        }
    }
}

pub open spec fn pow10(k: nat) -> int
    decreases k,
{
    if k == 0 {
        1
    } else {
        10 * pow10((k - 1) as nat)
    }
}

proof fn lemma_decimal_len_bound(n: u64, k: nat)
    requires
        k >= 1,
        n < pow10(k),
    ensures
        decimal(n).len() <= k,
    decreases k,
{
    lemma_digit_len(n % 10);
    lemma_digit_len(n);
    if n >= 10 {
        let p = pow10((k - 1) as nat);
        assert(n < 10 * p);
        assert((n / 10) < p) by (nonlinear_arith)
            requires
                n < 10 * p,
        ;
        if k == 1 {
            assert(false);
        }
        lemma_decimal_len_bound(n / 10, (k - 1) as nat);
    }
}

fn decimal_len(n: u64) -> (r: usize)
    ensures
        r == decimal(n).len(),
        1 <= r <= 20,
    decreases n,
{
    proof {
        lemma_digit_len(n % 10);
        lemma_digit_len(n);
        reveal_with_fuel(pow10, 21);
        assert(pow10(20) == 100_000_000_000_000_000_000);
        lemma_decimal_len_bound(n, 20);
    }
    if n < 10 {
        1
    } else {
        decimal_len(n / 10) + 1
    }
}

fn append_numbers(out: &mut String, nums: &Vec<u64>)
    ensures
        final(out)@ == old(out)@ + number_lines(nums@, 0),
{
    let mut w: usize = 0;
    let mut i: usize = 0;
    proof {
        reveal_strlit(",");
        assert(nums@.skip(0) =~= nums@);
    }
    while i < nums.len()
        invariant
            i <= nums@.len(),
            w <= LINE_WIDTH + 21,
            old(out)@ + number_lines(nums@, 0) == out@ + number_lines(nums@.skip(i as int), w as int),
        decreases nums@.len() - i,
    {
        let n = nums[i];
        let len = decimal_len(n) + 1;
        assert(nums@.skip(i as int).drop_first() =~= nums@.skip(i + 1));
        assert(nums@.skip(i as int)[0] == n);
        if w + len > LINE_WIDTH {
            out.append("\n");
            w = len;
        } else {
            w = w + len;
        }
        append_decimal(out, n);
        out.append(",");
        i = i + 1;
        proof {
            reveal_strlit(",");
            assert(entry_text(n).len() == len);
        }
    }
    assert(nums@.skip(i as int) =~= Seq::<u64>::empty());
    assert(number_lines(Seq::<u64>::empty(), w as int) =~= Seq::<char>::empty());
}

fn width_str(w: IntWidth) -> (r: &'static str)
    ensures
        r@ == width_name(w),
{
    match w {
        IntWidth::U8 => "u8",
        IntWidth::U16 => "u16",
        IntWidth::U32 => "u32",
        IntWidth::U64 => "u64",
    }
}

impl PropertyTables {
    /// The tables as Rust source, ready to be embedded.
    pub fn text(&self, name: &str) -> (r: String)
        ensures
            r@ == tables_text(self, name@),
    {
        let mut out = String::new();
        out.append("pub const ");
        out.append(name);
        out.append("_VALUES: &[");
        out.append(width_str(self.value_type));
        out.append("] = &[\n");
        append_numbers(&mut out, &self.values);
        out.append("\n];\n\n");
        out.append("pub const ");
        out.append(name);
        out.append("_INDEX: &[");
        out.append(width_str(self.index_type));
        out.append("] = &[\n");
        append_numbers(&mut out, &self.index);
        out.append("\n];\n");
        assert(out@ =~= tables_text(self, name@));
        out
    }
}

} // verus!
