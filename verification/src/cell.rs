//! Mesh cells and their stable identifiers.

use vstd::prelude::*;

use crate::vector_3d::Vector3D;

verus! {

/// A mesh cell: a center, the processor that owns it, and two indices.
/// `local_index` is unique within the owning processor; `global_index` is
/// unique across the whole grid and is assigned after sorting the cells by
/// `(processor_num, local_index)`.
#[derive(Clone, Copy, PartialEq, Eq, Structural, Debug, Hash)]
pub struct Cell {
    pub center: Vector3D,
    pub global_index: usize,
    pub local_index: usize,
    pub processor_num: usize,
}

impl Cell {
    /// The identifier under which other cells name this one.
    pub fn get_id(&self) -> (r: CellId)
        ensures
            r == (CellId { index: self.local_index, processor_num: self.processor_num }),
    {
        CellId { index: self.local_index, processor_num: self.processor_num }
    }
}

/// Names a cell by `(processor_num, local_index)`, the form a grid listing
/// uses for neighbour references.
#[derive(Clone, Copy, PartialEq, Eq, Structural, Debug, Hash)]
pub struct CellId {
    pub index: usize,
    pub processor_num: usize,
}

impl CellId {
    pub fn new(processor_num: usize, index: usize) -> (r: CellId)
        ensures
            r == (CellId { index, processor_num }),
    {
        CellId { index, processor_num }
    }

    /// Reads an identity written as `P,I`: the processor number, a comma,
    /// the local index, nothing else. Rejects anything shaped otherwise,
    /// and values that do not fit.
    pub fn parse(s: &Vec<u8>) -> (r: Option<CellId>)
        ensures
            r == spec_parse_cell_id(s@),
    {
        let n = s.len();
        let mut c: usize = 0;
        while c < n && s[c] != 44
            invariant
                c <= n,
                n == s@.len(),
                forall|k: int| 0 <= k < c ==> s@[k] != 44,
            decreases n - c,
        {
            c = c + 1;
        }
        proof {
            lemma_first_comma_scan(s@, c as int);
        }
        if c == n {
            return None;
        }
        let before = copy_range(s, 0, c);
        let after = copy_range(s, c + 1, n);
        proof {
            assert(before@ =~= s@.take(c as int));
            assert(after@ =~= s@.skip(c as int + 1));
        }
        let processor_num = match parse_usize(&before) {
            Some(v) => v,
            None => {
                return None;
            },
        };
        let index = match parse_usize(&after) {
            Some(v) => v,
            None => {
                return None;
            },
        };
        Some(CellId { index, processor_num })
    }
}

/// Position of the first comma, or the length when there is none.
pub open spec fn first_comma(s: Seq<u8>) -> int
    decreases s.len(),
{
    if s.len() == 0 {
        0
    } else if s[0] == 44 {
        0
    } else {
        1 + first_comma(s.drop_first())
    }
}

/// A scan that saw no comma before `i` pins `first_comma` down.
proof fn lemma_first_comma_scan(s: Seq<u8>, i: int)
    requires
        0 <= i <= s.len(),
        forall|k: int| 0 <= k < i ==> s[k] != 44,
        i < s.len() ==> s[i] == 44,
    ensures
        i < s.len() ==> first_comma(s) == i,
        i == s.len() ==> first_comma(s) == s.len(),
    decreases s.len(),
{
    if s.len() > 0 && s[0] != 44 {
        assert(forall|k: int| 0 <= k < s.drop_first().len() ==> s.drop_first()[k] == s[k + 1]);
        lemma_first_comma_scan(s.drop_first(), i - 1);
    }
}

/// Whether every byte is a decimal digit.
pub open spec fn all_digits(s: Seq<u8>) -> bool {
    forall|k: int| 0 <= k < s.len() ==> 48 <= #[trigger] s[k] <= 57
}

/// The number a digit string denotes, most significant digit first.
pub open spec fn digits_value(s: Seq<u8>) -> nat
    decreases s.len(),
{
    if s.len() == 0 {
        0
    } else {
        digits_value(s.drop_last()) * 10 + ((s.last() - 48) as nat)
    }
}

/// What `P,I` means, in one place: a nonempty digit string, one comma, a
/// nonempty digit string, both values within `usize`.
pub open spec fn spec_parse_cell_id(s: Seq<u8>) -> Option<CellId> {
    let c = first_comma(s);
    let before = s.take(c);
    let after = s.skip(c + 1);
    if c < s.len() && before.len() > 0 && all_digits(before) && after.len() > 0 && all_digits(
        after,
    ) && digits_value(before) <= usize::MAX && digits_value(after) <= usize::MAX {
        Some(
            CellId {
                index: digits_value(after) as usize,
                processor_num: digits_value(before) as usize,
            },
        )
    } else {
        None
    }
}

/// The bytes `[from, to)` of `s`, as their own vector.
fn copy_range(s: &Vec<u8>, from: usize, to: usize) -> (r: Vec<u8>)
    requires
        from <= to <= s@.len(),
    ensures
        r@ == s@.subrange(from as int, to as int),
{
    let mut r: Vec<u8> = Vec::new();
    let mut k: usize = from;
    while k < to
        invariant
            from <= k <= to <= s@.len(),
            r@ == s@.subrange(from as int, k as int),
        decreases to - k,
    {
        r.push(s[k]);
        proof {
            assert(r@ =~= s@.subrange(from as int, k + 1));
        }
        k = k + 1;
    }
    r
}

/// Reads an unsigned decimal number covering the whole string: at least one
/// digit, no other byte, and a value that fits.
fn parse_usize(s: &Vec<u8>) -> (r: Option<usize>)
    ensures
        match r {
            Some(v) => s@.len() > 0 && all_digits(s@) && digits_value(s@) == v,
            None => s@.len() == 0 || !all_digits(s@) || digits_value(s@) > usize::MAX,
        },
{
    let n = s.len();
    if n == 0 {
        return None;
    }
    let mut acc: usize = 0;
    let mut k: usize = 0;
    while k < n
        invariant
            k <= n,
            n == s@.len(),
            all_digits(s@.take(k as int)),
            acc == digits_value(s@.take(k as int)),
        decreases n - k,
    {
        let b = s[k];
        if b < 48 || b > 57 {
            proof {
                assert(!all_digits(s@));
            }
            return None;
        }
        let d = (b - 48) as usize;
        let wide: u128 = acc as u128 * 10 + d as u128;
        proof {
            assert(s@.take(k + 1).drop_last() =~= s@.take(k as int));
            assert(s@.take(k + 1).last() == s@[k as int]);
        }
        if wide > usize::MAX as u128 {
            proof {
                if all_digits(s@) {
                    lemma_digits_value_extends(s@, k + 1);
                }
            }
            return None;
        }
        acc = wide as usize;
        proof {
            assert(all_digits(s@.take(k + 1)));
        }
        k = k + 1;
    }
    proof {
        assert(s@.take(n as int) =~= s@);
    }
    Some(acc)
}

/// A digit string is worth at least any of its prefixes.
proof fn lemma_digits_value_extends(s: Seq<u8>, i: int)
    requires
        0 <= i <= s.len(),
        all_digits(s),
    ensures
        digits_value(s) >= digits_value(s.take(i)),
    decreases s.len() - i,
{
    if i < s.len() {
        assert(s.take(i + 1).drop_last() =~= s.take(i));
        assert(48 <= s[i] <= 57);
        assert(digits_value(s.take(i + 1)) == digits_value(s.take(i)) * 10 + ((s.take(
            i + 1,
        ).last() - 48) as nat));
        assert(digits_value(s.take(i + 1)) >= digits_value(s.take(i))) by (nonlinear_arith)
            requires
                digits_value(s.take(i + 1)) == digits_value(s.take(i)) * 10 + ((s.take(
                    i + 1,
                ).last() - 48) as nat),
                digits_value(s.take(i)) >= 0,
        ;
        lemma_digits_value_extends(s, i + 1);
    } else {
        assert(s.take(i) =~= s);
    }
}

} // verus!
