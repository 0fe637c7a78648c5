use vstd::prelude::*;

verus! {

/// Whether `s` holds CR LF at positions `i`, `i + 1`.
pub open spec fn crlf_at(s: Seq<u8>, i: int) -> bool {
    0 <= i && i + 1 < s.len() && s[i] == 13u8 && s[i + 1] == 10u8
}

/// The position of the first CR LF at or after `i`.
pub open spec fn first_crlf(s: Seq<u8>, i: int) -> Option<int>
    decreases s.len() - i,
{
    if i < 0 || i + 1 >= s.len() {
        None
    } else if crlf_at(s, i) {
        Some(i)
    } else {
        first_crlf(s, i + 1)
    }
}

pub proof fn lemma_first_crlf_bounds(s: Seq<u8>, i: int)
    ensures
        first_crlf(s, i) matches Some(j) ==> i <= j && crlf_at(s, j),
    decreases s.len() - i,
{
    if i < 0 || i + 1 >= s.len() {
    } else if crlf_at(s, i) {
    } else {
        lemma_first_crlf_bounds(s, i + 1);
    }
}

/// Finds the first CR LF at or after `from`.
pub fn find_crlf(buf: &[u8], from: usize) -> (r: Option<usize>)
    ensures
        r matches Some(j) ==> first_crlf(buf@, from as int) == Some(j as int),
        r is None ==> first_crlf(buf@, from as int) is None,
{
    let mut i: usize = from;
    if buf.len() < 2 {
        return None;
    }
    while i < buf.len() - 1
        invariant
            buf.len() >= 2,
            from <= i,
            first_crlf(buf@, from as int) == first_crlf(buf@, i as int),
        decreases buf.len() - i,
    {
        if buf[i] == 13u8 && buf[i + 1] == 10u8 {
            return Some(i);
        }
        i = i + 1;
    }
    None
}

/// The position of the first `b` at or after `i`.
pub open spec fn first_byte(s: Seq<u8>, b: u8, i: int) -> Option<int>
    decreases s.len() - i,
{
    if i < 0 || i >= s.len() {
        None
    } else if s[i] == b {
        Some(i)
    } else {
        first_byte(s, b, i + 1)
    }
}

pub proof fn lemma_first_byte_bounds(s: Seq<u8>, b: u8, i: int)
    ensures
        first_byte(s, b, i) matches Some(j) ==> i <= j < s.len() && s[j] == b,
    decreases s.len() - i,
{
    if i < 0 || i >= s.len() {
    } else if s[i] == b {
    } else {
        lemma_first_byte_bounds(s, b, i + 1);
    }
}

/// Finds the first `b` at or after `from`.
pub fn find_byte(buf: &[u8], b: u8, from: usize) -> (r: Option<usize>)
    ensures
        r matches Some(j) ==> first_byte(buf@, b, from as int) == Some(j as int),
        r is None ==> first_byte(buf@, b, from as int) is None,
{
    let mut i: usize = from;
    while i < buf.len()
        invariant
            from <= i,
            first_byte(buf@, b, from as int) == first_byte(buf@, b, i as int),
        decreases buf.len() - i,
    {
        if buf[i] == b {
            return Some(i);
        }
        i = i + 1;
    }
    None
}

/// Copies `buf[from..to]`.
pub fn copy_range(buf: &[u8], from: usize, to: usize) -> (r: Vec<u8>)
    requires
        from <= to <= buf.len(),
    ensures
        r@ == buf@.subrange(from as int, to as int),
{
    let mut out: Vec<u8> = Vec::new();
    let mut i: usize = from;
    while i < to
        invariant
            from <= i <= to <= buf.len(),
            out@ == buf@.subrange(from as int, i as int),
        decreases to - i,
    {
        out.push(buf[i]);
        assert(out@ =~= buf@.subrange(from as int, i + 1));
        i = i + 1;
    }
    out
}

/// Whether two byte strings are equal.
pub fn bytes_eq(a: &[u8], b: &[u8]) -> (r: bool)
    ensures
        r == (a@ == b@),
{
    if a.len() != b.len() {
        return false;
    }
    let mut i: usize = 0;
    while i < a.len()
        invariant
            a.len() == b.len(),
            i <= a.len(),
            forall|k: int| 0 <= k < i ==> a@[k] == b@[k],
        decreases a.len() - i,
    {
        if a[i] != b[i] {
            return false;
        }
        i = i + 1;
    }
    assert(a@ =~= b@);
    true
}

/// ASCII lower case of one byte.
pub open spec fn lower(b: u8) -> u8 {
    if 65 <= b <= 90 {
        (b + 32) as u8
    } else {
        b
    }
}

pub fn lower_byte(b: u8) -> (r: u8)
    ensures
        r == lower(b),
{
    if 65 <= b && b <= 90 {
        b + 32
    } else {
        b
    }
}

/// Whether `a` equals `lc` when ASCII case is ignored; `lc` is given in lower case.
pub open spec fn eq_ignore_case(a: Seq<u8>, lc: Seq<u8>) -> bool {
    a.len() == lc.len() && forall|k: int| 0 <= k < a.len() ==> lower(#[trigger] a[k]) == lc[k]
}

pub fn bytes_eq_ignore_case(a: &[u8], lc: &[u8]) -> (r: bool)
    ensures
        r == eq_ignore_case(a@, lc@),
{
    if a.len() != lc.len() {
        return false;
    }
    let mut i: usize = 0;
    while i < a.len()
        invariant
            a.len() == lc.len(),
            i <= a.len(),
            forall|k: int| 0 <= k < i ==> lower(#[trigger] a@[k]) == lc@[k],
        decreases a.len() - i,
    {
        if lower_byte(a[i]) != lc[i] {
            return false;
        }
        i = i + 1;
    }
    true
}

pub open spec fn is_digit(b: u8) -> bool {
    48 <= b <= 57
}

/// The value of a string of decimal digits.
pub open spec fn digits_value(s: Seq<u8>) -> nat
    decreases s.len(),
{
    if s.len() == 0 {
        0
    } else {
        digits_value(s.drop_last()) * 10 + (s.last() - 48) as nat
    }
}

pub open spec fn all_digits(s: Seq<u8>) -> bool {
    forall|k: int| 0 <= k < s.len() ==> is_digit(#[trigger] s[k])
}

/// A nonempty decimal numeral whose value fits in a `u64`.
pub open spec fn decimal_of(s: Seq<u8>) -> Option<u64> {
    if s.len() > 0 && all_digits(s) && digits_value(s) <= u64::MAX {
        Some(digits_value(s) as u64)
    } else {
        None
    }
}

pub proof fn lemma_digits_prefix_le(s: Seq<u8>, k: int)
    requires
        0 <= k <= s.len(),
        all_digits(s),
    ensures
        digits_value(s.subrange(0, k)) <= digits_value(s),
    decreases s.len() - k,
{
    if k < s.len() {
        let t = s.subrange(0, k + 1);
        assert(t.drop_last() =~= s.subrange(0, k));
        assert(is_digit(s[k]));
        lemma_digits_prefix_le(s, k + 1);
    } else {
        assert(s.subrange(0, k) =~= s);
    }
}

/// Reads a decimal numeral, or `None` when it is empty, holds a non-digit or overflows.
pub fn parse_decimal(s: &[u8]) -> (r: Option<u64>)
    ensures
        r == decimal_of(s@),
{
    if s.len() == 0 {
        return None;
    }
    let mut acc: u64 = 0;
    let mut i: usize = 0;
    while i < s.len()
        invariant
            i <= s.len(),
            all_digits(s@.subrange(0, i as int)),
            acc as nat == digits_value(s@.subrange(0, i as int)),
        decreases s.len() - i,
    {
        let b = s[i];
        let t = Ghost(s@.subrange(0, i + 1));
        assert(t@.drop_last() =~= s@.subrange(0, i as int));
        if b < 48 || b > 57 {
            assert(!is_digit(s@[i as int]));
            return None;
        }
        let d: u64 = (b - 48) as u64;
        if acc > (u64::MAX - d) / 10 {
            assert(digits_value(t@) > u64::MAX) by (nonlinear_arith)
                requires
                    acc > (u64::MAX - d) / 10,
                    digits_value(t@) == acc * 10 + d,
                    d <= 9,
            ;
            proof {
                if all_digits(s@) {
                    lemma_digits_prefix_le(s@, i + 1);
                }
            }
            return None;
        }
        assert(acc * 10 + d <= u64::MAX) by (nonlinear_arith)
            requires
                acc <= (u64::MAX - d) / 10,
                d <= 9,
        ;
        acc = acc * 10 + d;
        assert(all_digits(t@));
        i = i + 1;
    }
    assert(s@.subrange(0, s.len() as int) =~= s@);
    Some(acc)
}

/// Appends `b` to `out`.
pub fn append_bytes(out: &mut Vec<u8>, b: &[u8])
    ensures
        final(out)@ == old(out)@ + b@,
{
    let mut i: usize = 0;
    while i < b.len()
        invariant
            i <= b.len(),
            out@ == old(out)@ + b@.take(i as int),
        decreases b.len() - i,
    {
        out.push(b[i]);
        assert(b@.take(i + 1) =~= b@.take(i as int).push(b@[i as int]));
        i = i + 1;
    }
    assert(b@.take(i as int) =~= b@);
}

} // verus!
