//! Reading the layer range given on the command line.
use vstd::prelude::*;
use crate::text::{
    all_digits, chars_of, decimal_chars, is_digit, lemma_decimal_chars, parse_bounded, parse_unsigned,
};

verus! {

/// Why a layer range was refused.
#[derive(Debug, Clone, Copy, PartialEq, Eq, Structural)]
pub enum LayersError {
    /// The text is not two parts joined by one `-`.
    Format,
    /// A part is not an unsigned 32-bit number.
    Number,
    /// The first layer comes after the last.
    StartAfterEnd,
}

/// How often `c` occurs in `s`.
pub open spec fn count_char(s: Seq<char>, c: char) -> nat
    decreases s.len(),
{
    if s.len() == 0 {
        0
    } else {
        count_char(s.drop_last(), c) + if s.last() == c {
            1nat
        } else {
            0nat
        }
    }
}

/// Where `c` first occurs in `s`, or `s.len()` when it does not.
pub open spec fn first_index(s: Seq<char>, c: char) -> nat
    decreases s.len(),
{
    if s.len() == 0 {
        0
    } else if s[0] == c {
        0
    } else {
        1 + first_index(s.drop_first(), c)
    }
}

/// The layer range that `s` writes as `start-end`, with `start <= end`.
pub open spec fn spec_parse_layers(s: Seq<char>) -> Result<(u32, u32), LayersError> {
    if count_char(s, '-') != 1 {
        Err(LayersError::Format)
    } else {
        let k = first_index(s, '-') as int;
        match (parse_bounded(s.take(k), 0xffff_ffff), parse_bounded(s.skip(k + 1), 0xffff_ffff)) {
            (Some(a), Some(b)) => if a <= b {
                Ok((a as u32, b as u32))
            } else {
                Err(LayersError::StartAfterEnd)
            },
            _ => Err(LayersError::Number),
        }
    }
}

proof fn lemma_count_first(s: Seq<char>, c: char, i: int)
    requires
        0 <= i <= s.len(),
        forall|j: int| 0 <= j < i ==> s[j] != c,
    ensures
        count_char(s.take(i), c) == 0,
        i < s.len() && s[i] == c ==> first_index(s, c) == i,
    decreases s.len(), i,
{
    if i > 0 {
        assert(s.take(i).drop_last() =~= s.take(i - 1));
        lemma_count_first(s, c, i - 1);
    }
    if i < s.len() && s[i] == c && i > 0 {
        assert(s.drop_first()[i - 1] == c);
        lemma_count_first(s.drop_first(), c, i - 1);
    }
}

/// How often `c` occurs in two texts put together.
proof fn lemma_count_concat(x: Seq<char>, y: Seq<char>, c: char)
    ensures
        count_char(x + y, c) == count_char(x, c) + count_char(y, c),
    decreases y.len(),
{
    if y.len() > 0 {
        assert((x + y).drop_last() =~= x + y.drop_last());
        lemma_count_concat(x, y.drop_last(), c);
    } else {
        assert(x + y =~= x);
    }
}

/// No `-` occurs among decimal digits.
proof fn lemma_digits_no_dash(s: Seq<char>)
    requires
        all_digits(s),
    ensures
        count_char(s, '-') == 0,
    decreases s.len(),
{
    if s.len() > 0 {
        assert(is_digit(s[s.len() - 1]));
        lemma_digits_no_dash(s.drop_last());
    }
}

/// Writing two layers in decimal joined by `-` and reading the text back
/// gives the two layers when the first is not after the second, and
/// `StartAfterEnd` otherwise.
pub proof fn lemma_parse_layers_reads_back(a: u32, b: u32)
    ensures
        spec_parse_layers(decimal_chars(a as nat) + seq!['-'] + decimal_chars(b as nat)) == if a <= b {
            Ok::<(u32, u32), LayersError>((a, b))
        } else {
            Err(LayersError::StartAfterEnd)
        },
{
    let da = decimal_chars(a as nat);
    let db = decimal_chars(b as nat);
    let s = da + seq!['-'] + db;
    lemma_decimal_chars(a as nat);
    lemma_decimal_chars(b as nat);
    lemma_digits_no_dash(da);
    lemma_digits_no_dash(db);
    lemma_count_concat(da, seq!['-'], '-');
    lemma_count_concat(da + seq!['-'], db, '-');
    assert(count_char(seq!['-'], '-') == 1) by {
        assert(seq!['-'].drop_last() =~= Seq::<char>::empty());
        assert(count_char(Seq::<char>::empty(), '-') == 0);
        assert(seq!['-'].last() == '-');
    }
    let k = da.len() as int;
    assert forall|j: int| 0 <= j < k implies s[j] != '-' by {
        assert(s[j] == da[j]);
        assert(is_digit(da[j]));
    }
    lemma_count_first(s, '-', k);
    assert(s[k] == '-');
    assert(s.take(k) =~= da);
    assert(s.skip(k + 1) =~= db);
}

/// Reads a layer range written `start-end`.
pub fn parse_layers(s: &str) -> (r: Result<(u32, u32), LayersError>)
    ensures
        r == spec_parse_layers(s@),
{
    let cs = chars_of(s);
    let mut count: usize = 0;
    let mut pos: usize = 0;
    let mut i: usize = 0;
    while i < cs.len()
        invariant
            i <= cs@.len(),
            cs@ == s@,
            count as nat == count_char(cs@.take(i as int), '-'),
            count <= i,
            count == 0 ==> forall|j: int| 0 <= j < i ==> cs@[j] != '-',
            count > 0 ==> pos < i && cs@[pos as int] == '-' && first_index(cs@, '-') == pos,
        decreases cs@.len() - i,
    {
        let ghost t = cs@.take(i + 1);
        assert(t.drop_last() =~= cs@.take(i as int));
        if cs[i] == '-' {
            if count == 0 {
                pos = i;
                proof {
                    lemma_count_first(cs@, '-', i as int);
                }
            }
            count = count + 1;
        }
        i = i + 1;
    }
    assert(cs@.take(cs@.len() as int) =~= cs@);
    if count != 1 {
        return Err(LayersError::Format);
    }
    let left = cs.as_slice();
    let a = parse_unsigned(&left[0..pos], 0xffff_ffff);
    let b = parse_unsigned(&left[pos + 1..cs.len()], 0xffff_ffff);
    assert(cs@.subrange(0, pos as int) =~= cs@.take(pos as int));
    assert(cs@.subrange(pos + 1, cs@.len() as int) =~= cs@.skip(pos + 1));
    match (a, b) {
        (Some(a), Some(b)) => {
            if a <= b {
                Ok((a as u32, b as u32))
            } else {
                Err(LayersError::StartAfterEnd)
            }
        },
        _ => Err(LayersError::Number),
    }
}

} // verus!
