//! Byte-level text primitives shared by every codec in the crate: decimal
//! digit strings, signed integers, splitting and joining on a separator.
//! All specifications speak about `Seq<u8>`; the functions that face
//! `String` convert at the boundary.

use vstd::prelude::*;

verus! {

pub const ZERO_DIGIT: u8 = 48u8;

/// The decimal digit character for `d` (`d < 10`).
pub open spec fn digit_byte(d: nat) -> u8 {
    (48 + d) as u8
}

pub open spec fn is_digit(b: u8) -> bool {
    48 <= b <= 57
}

pub open spec fn digit_val(b: u8) -> nat {
    (b - 48) as nat
}

pub open spec fn all_digits(s: Seq<u8>) -> bool {
    forall|i: int| 0 <= i < s.len() ==> is_digit(#[trigger] s[i])
}

/// The canonical decimal digit string of `n`, most significant digit first.
pub open spec fn dec_digits(n: nat) -> Seq<u8>
    decreases n,
{
    if n < 10 {
        seq![digit_byte(n)]
    } else {
        dec_digits(n / 10).push(digit_byte(n % 10))
    }
}

/// The numeric value of a digit string (empty string has value 0).
pub open spec fn dec_val(s: Seq<u8>) -> nat
    decreases s.len(),
{
    if s.len() == 0 {
        0
    } else {
        dec_val(s.drop_last()) * 10 + digit_val(s.last())
    }
}

pub open spec fn pow10(n: nat) -> nat
    decreases n,
{
    if n == 0 {
        1
    } else {
        10 * pow10((n - 1) as nat)
    }
}

pub proof fn lemma_dec_digits_props(n: nat)
    ensures
        dec_digits(n).len() >= 1,
        all_digits(dec_digits(n)),
        dec_val(dec_digits(n)) == n,
        n > 0 ==> dec_digits(n)[0] != ZERO_DIGIT,
        n == 0 ==> dec_digits(n) == seq![ZERO_DIGIT],
    decreases n,
{
    if n < 10 {
        assert(dec_digits(n) == seq![digit_byte(n)]);
        assert(dec_val(dec_digits(n)) == dec_val(seq![digit_byte(n)].drop_last()) * 10 + digit_val(digit_byte(n)));
        assert(seq![digit_byte(n)].drop_last() == Seq::<u8>::empty());
    } else {
        lemma_dec_digits_props(n / 10);
        let prev = dec_digits(n / 10);
        let whole = prev.push(digit_byte(n % 10));
        assert(whole.drop_last() == prev);
        assert(whole.last() == digit_byte(n % 10));
        assert(dec_val(whole) == dec_val(prev) * 10 + digit_val(digit_byte(n % 10)));
        assert(n / 10 * 10 + n % 10 == n);
        assert(whole[0] == prev[0]);
        assert(forall|i: int| 0 <= i < whole.len() ==> is_digit(#[trigger] whole[i]));
    }
}

pub proof fn lemma_dec_val_upper(s: Seq<u8>)
    requires
        all_digits(s),
    ensures
        dec_val(s) < pow10(s.len()),
    decreases s.len(),
{
    if s.len() == 0 {
    } else {
        assert(all_digits(s.drop_last())) by {
            assert(forall|i: int| 0 <= i < s.len() - 1 ==> s.drop_last()[i] == #[trigger] s[i]);
        }
        lemma_dec_val_upper(s.drop_last());
        assert(is_digit(s.last()));
        assert(digit_val(s.last()) <= 9);
        assert(dec_val(s) <= (pow10((s.len() - 1) as nat) - 1) * 10 + 9) by (nonlinear_arith)
            requires
                dec_val(s) == dec_val(s.drop_last()) * 10 + digit_val(s.last()),
                dec_val(s.drop_last()) <= pow10((s.len() - 1) as nat) - 1,
                digit_val(s.last()) <= 9,
        ;
        assert(pow10(s.len()) == 10 * pow10((s.len() - 1) as nat));
    }
}

/// With no leading zero, a digit string's value reaches at least
/// `pow10(len - 1)`.
pub proof fn lemma_dec_val_lower(s: Seq<u8>)
    requires
        all_digits(s),
        s.len() >= 1,
        s[0] != ZERO_DIGIT,
    ensures
        dec_val(s) >= pow10((s.len() - 1) as nat),
    decreases s.len(),
{
    if s.len() == 1 {
        assert(s.drop_last() == Seq::<u8>::empty());
        assert(dec_val(s) == digit_val(s[0]));
    } else {
        assert(all_digits(s.drop_last())) by {
            assert(forall|i: int| 0 <= i < s.len() - 1 ==> s.drop_last()[i] == #[trigger] s[i]);
        }
        lemma_dec_val_lower(s.drop_last());
        assert(dec_val(s) >= pow10((s.len() - 2) as nat) * 10) by (nonlinear_arith)
            requires
                dec_val(s) == dec_val(s.drop_last()) * 10 + digit_val(s.last()),
                dec_val(s.drop_last()) >= pow10((s.len() - 2) as nat),
        ;
        assert(pow10((s.len() - 1) as nat) == 10 * pow10((s.len() - 2) as nat));
    }
}

/// Leading zeros do not change a digit string's value.
pub proof fn lemma_dec_val_skip_zeros(s: Seq<u8>, k: int)
    requires
        0 <= k <= s.len(),
        forall|i: int| 0 <= i < k ==> s[i] == ZERO_DIGIT,
    ensures
        dec_val(s.skip(k)) == dec_val(s),
    decreases s.len(),
{
    if s.len() == 0 || k == 0 {
        assert(s.skip(0) == s);
    } else if k == s.len() {
        // all of s is zeros
        lemma_dec_val_all_zeros(s);
        assert(s.skip(k) == Seq::<u8>::empty());
    } else {
        assert(s.skip(k).len() >= 1);
        assert(s.skip(k).drop_last() == s.drop_last().skip(k));
        assert(s.skip(k).last() == s.last());
        lemma_dec_val_skip_zeros(s.drop_last(), k);
    }
}

pub proof fn lemma_dec_val_all_zeros(s: Seq<u8>)
    requires
        forall|i: int| 0 <= i < s.len() ==> s[i] == ZERO_DIGIT,
    ensures
        dec_val(s) == 0,
    decreases s.len(),
{
    if s.len() > 0 {
        lemma_dec_val_all_zeros(s.drop_last());
    }
}

/// The prefix of a digit string relates to the next longer prefix by one
/// more digit of weight one.
pub proof fn lemma_dec_val_extend(s: Seq<u8>, from: int, i: int)
    requires
        0 <= from <= i < s.len(),
    ensures
        dec_val(s.subrange(from, i + 1)) == dec_val(s.subrange(from, i)) * 10 + digit_val(s[i]),
{
    assert(s.subrange(from, i + 1).drop_last() == s.subrange(from, i));
    assert(s.subrange(from, i + 1).last() == s[i]);
}

// ---------------------------------------------------------------------------
// Splitting and joining on a separator byte
// ---------------------------------------------------------------------------

/// The view of a vector of byte vectors as a sequence of byte sequences.
pub open spec fn seq2(v: Seq<Vec<u8>>) -> Seq<Seq<u8>> {
    v.map(|i: int, x: Vec<u8>| x@)
}

/// Split `s` at every occurrence of `sep`, as `str::split` does: the result
/// always has one more element than `s` has separators, and an empty `s`
/// yields one empty part.
pub open spec fn split_on(s: Seq<u8>, sep: u8) -> Seq<Seq<u8>>
    decreases s.len(),
{
    if s.len() == 0 {
        seq![Seq::<u8>::empty()]
    } else if s[0] == sep {
        seq![Seq::<u8>::empty()] + split_on(s.drop_first(), sep)
    } else {
        let rest = split_on(s.drop_first(), sep);
        seq![seq![s[0]] + rest[0]] + rest.drop_first()
    }
}

pub proof fn lemma_split_len(s: Seq<u8>, sep: u8)
    ensures
        split_on(s, sep).len() >= 1,
    decreases s.len(),
{
    if s.len() > 0 {
        lemma_split_len(s.drop_first(), sep);
    }
}

/// Splitting is determined by the first separator: everything before it is
/// the first part, and the rest splits independently. When `i == s.len()`
/// there is no separator and `s` is the single part.
pub proof fn lemma_split_at_first(s: Seq<u8>, sep: u8, i: int)
    requires
        0 <= i <= s.len(),
        forall|j: int| 0 <= j < i ==> s[j] != sep,
        i < s.len() ==> s[i] == sep,
    ensures
        i < s.len() ==> split_on(s, sep) == seq![s.take(i)] + split_on(s.skip(i + 1), sep),
        i == s.len() ==> split_on(s, sep) == seq![s],
    decreases i,
{
    lemma_split_len(s, sep);
    if i == 0 {
        if 0 < s.len() {
            assert(s.take(0) == Seq::<u8>::empty());
            assert(s.skip(1) == s.drop_first());
        } else {
            assert(s == Seq::<u8>::empty());
        }
    } else {
        let t = s.drop_first();
        assert(forall|j: int| 0 <= j < i - 1 ==> t[j] == #[trigger] s[j + 1]);
        lemma_split_at_first(t, sep, i - 1);
        lemma_split_len(t, sep);
        if i < s.len() {
            assert(t[i - 1] == s[i]);
            let rest = split_on(t, sep);
            assert(rest == seq![t.take(i - 1)] + split_on(t.skip(i), sep));
            assert(rest[0] == t.take(i - 1));
            assert(seq![s[0]] + t.take(i - 1) == s.take(i));
            assert(rest.drop_first() == split_on(t.skip(i), sep));
            assert(t.skip(i) == s.skip(i + 1));
            assert(split_on(s, sep) == seq![s.take(i)] + split_on(s.skip(i + 1), sep));
        } else {
            assert(split_on(t, sep) == seq![t]);
            let rest = split_on(t, sep);
            assert(rest[0] == t);
            assert(seq![s[0]] + t == s);
            assert(rest.drop_first() == Seq::<Seq<u8>>::empty());
            assert(split_on(s, sep) == seq![s]);
        }
    }
}

/// Join parts with a separator between consecutive parts.
pub open spec fn join_with(parts: Seq<Seq<u8>>, sep: u8) -> Seq<u8>
    decreases parts.len(),
{
    if parts.len() == 0 {
        Seq::<u8>::empty()
    } else if parts.len() == 1 {
        parts[0]
    } else {
        parts[0] + seq![sep] + join_with(parts.drop_first(), sep)
    }
}

pub proof fn lemma_join_push(parts: Seq<Seq<u8>>, p: Seq<u8>, sep: u8)
    requires
        parts.len() >= 1,
    ensures
        join_with(parts.push(p), sep) == join_with(parts, sep) + seq![sep] + p,
    decreases parts.len(),
{
    if parts.len() == 1 {
        assert(parts.push(p)[0] == parts[0]);
        assert(parts.push(p).drop_first() == seq![p]);
        assert(join_with(seq![p], sep) == p);
        assert(join_with(parts.push(p), sep) == parts[0] + seq![sep] + p);
    } else {
        assert(parts.push(p).drop_first() == parts.drop_first().push(p));
        lemma_join_push(parts.drop_first(), p, sep);
        assert(join_with(parts.push(p), sep) == parts[0] + seq![sep] + (join_with(
            parts.drop_first(),
            sep,
        ) + seq![sep] + p));
        assert(parts[0] + seq![sep] + (join_with(parts.drop_first(), sep) + seq![sep] + p)
            == (parts[0] + seq![sep] + join_with(parts.drop_first(), sep)) + seq![sep] + p);
    }
}

/// Splitting a joined sequence recovers the parts, provided no part
/// contains the separator.
pub proof fn lemma_split_join(parts: Seq<Seq<u8>>, sep: u8)
    requires
        parts.len() >= 1,
        forall|k: int| 0 <= k < parts.len() ==> !(#[trigger] parts[k]).contains(sep),
    ensures
        split_on(join_with(parts, sep), sep) == parts,
    decreases parts.len(),
{
    let s = join_with(parts, sep);
    if parts.len() == 1 {
        assert(forall|j: int| 0 <= j < s.len() ==> s[j] != sep) by {
            assert(forall|j: int| 0 <= j < parts[0].len() ==> parts[0][j] != sep) by {
                assert(!parts[0].contains(sep));
            }
        }
        lemma_split_at_first(s, sep, s.len() as int);
        assert(split_on(s, sep) == seq![parts[0]]);
        assert(seq![parts[0]] == parts);
    } else {
        let head = parts[0];
        let tail_join = join_with(parts.drop_first(), sep);
        assert(s == head + seq![sep] + tail_join);
        let i = head.len() as int;
        assert(forall|j: int| 0 <= j < i ==> s[j] == #[trigger] head[j] && s[j] != sep) by {
            assert(!head.contains(sep));
        }
        assert(s[i] == sep);
        lemma_split_at_first(s, sep, i);
        assert(s.take(i) == head);
        assert(s.skip(i + 1) == tail_join);
        assert(forall|k: int|
            0 <= k < parts.drop_first().len() ==> !(#[trigger] parts.drop_first()[k]).contains(sep))
            by {
            assert(forall|k: int|
                0 <= k < parts.len() - 1 ==> parts.drop_first()[k] == #[trigger] parts[k + 1]);
        }
        lemma_split_join(parts.drop_first(), sep);
        assert(split_on(s, sep) == seq![head] + parts.drop_first());
        assert(seq![head] + parts.drop_first() == parts);
    }
}

// ---------------------------------------------------------------------------
// Executable helpers
// ---------------------------------------------------------------------------

/// Append a copy of `src` to `dst`.
pub fn append_bytes(dst: &mut Vec<u8>, src: &Vec<u8>)
    ensures
        final(dst)@ == old(dst)@ + src@,
{
    let n = src.len();
    for i in 0..n
        invariant
            n == src@.len(),
            dst@ == old(dst)@ + src@.subrange(0, i as int),
    {
        dst.push(src[i]);
        proof {
            assert(src@.subrange(0, i + 1) == src@.subrange(0, i as int).push(src@[i as int]));
        }
    }
    proof {
        assert(src@.subrange(0, n as int) == src@);
    }
}

/// A copy of the byte range `[from, to)` of `s`.
pub fn copy_range(s: &Vec<u8>, from: usize, to: usize) -> (r: Vec<u8>)
    requires
        from <= to <= s@.len(),
    ensures
        r@ == s@.subrange(from as int, to as int),
{
    let mut out: Vec<u8> = Vec::new();
    for i in from..to
        invariant
            from <= i <= to <= s@.len(),
            out@ == s@.subrange(from as int, i as int),
    {
        out.push(s[i]);
        proof {
            assert(s@.subrange(from as int, i + 1) == s@.subrange(from as int, i as int).push(
                s@[i as int],
            ));
        }
    }
    out
}

/// The canonical decimal digit string of `n`.
pub fn u64_to_dec(n: u64) -> (r: Vec<u8>)
    ensures
        r@ == dec_digits(n as nat),
    decreases n,
{
    if n < 10 {
        let mut v: Vec<u8> = Vec::new();
        v.push(48 + n as u8);
        proof {
            assert(v@ == seq![digit_byte(n as nat)]);
        }
        v
    } else {
        let mut v = u64_to_dec(n / 10);
        v.push(48 + (n % 10) as u8);
        v
    }
}

/// Parse the digit suffix `s[from..]` as a `u64`.
/// Mirrors `parse_u64_spec` of that suffix.
pub open spec fn parse_u64_spec(s: Seq<u8>) -> Option<u64> {
    if s.len() >= 1 && all_digits(s) && dec_val(s) <= u64::MAX {
        Some(dec_val(s) as u64)
    } else {
        None
    }
}

pub fn parse_u64_from(s: &Vec<u8>, from: usize) -> (r: Option<u64>)
    requires
        from <= s@.len(),
    ensures
        r == parse_u64_spec(s@.skip(from as int)),
{
    let ghost t = s@.skip(from as int);
    let n = s.len();
    if from == n {
        return None;
    }
    // every byte must be a digit
    for i in from..n
        invariant
            from <= i <= n == s@.len(),
            t == s@.skip(from as int),
            forall|j: int| from <= j < i ==> is_digit(#[trigger] s@[j]),
    {
        if s[i] < 48 || s[i] > 57 {
            proof {
                assert(t[i - from] == s@[i as int]);
                assert(!all_digits(t));
            }
            return None;
        }
    }
    proof {
        assert(all_digits(t)) by {
            assert(forall|j: int| 0 <= j < t.len() ==> t[j] == #[trigger] s@[j + from]);
        }
    }
    // skip leading zeros
    let mut k = from;
    while k < n && s[k] == 48
        invariant
            from <= k <= n == s@.len(),
            forall|j: int| from <= j < k ==> s@[j] == ZERO_DIGIT,
        decreases n - k,
    {
        k += 1;
    }
    proof {
        assert(forall|j: int| 0 <= j < k - from ==> t[j] == #[trigger] s@[j + from] && t[j]
            == ZERO_DIGIT);
        lemma_dec_val_skip_zeros(t, k - from);
        assert(t.skip(k - from) == s@.skip(k as int));
    }
    let ghost u = s@.skip(k as int);
    proof {
        assert(dec_val(u) == dec_val(t));
        assert(all_digits(u)) by {
            assert(forall|j: int| 0 <= j < u.len() ==> u[j] == #[trigger] s@[j + k]);
        }
    }
    if n - k > 20 {
        // the value has at least 21 significant digits, far beyond u64
        proof {
            assert(u.len() > 20);
            assert(u[0] != ZERO_DIGIT);
            lemma_dec_val_lower(u);
            lemma_pow10_mono(20, (u.len() - 1) as nat);
            lemma_pow10_20();
        }
        return None;
    }
    let mut acc: u128 = 0;
    let mut i = k;
    while i < n
        invariant
            from <= k <= i <= n == s@.len(),
            u == s@.skip(k as int),
            all_digits(u),
            u.len() <= 20,
            acc == dec_val(s@.subrange(k as int, i as int)),
            acc < pow10((i - k) as nat),
            forall|j: int| k <= j < n ==> is_digit(#[trigger] s@[j]),
        decreases n - i,
    {
        let d = s[i] - 48;
        proof {
            assert(is_digit(s@[i as int]));
            lemma_dec_val_extend(s@, k as int, i as int);
            lemma_pow10_mono((i + 1 - k) as nat, 20);
            lemma_pow10_20();
            assert(acc * 10 + digit_val(s@[i as int]) < pow10((i + 1 - k) as nat)) by (nonlinear_arith)
                requires
                    acc < pow10((i - k) as nat),
                    digit_val(s@[i as int]) <= 9,
                    pow10((i + 1 - k) as nat) == 10 * pow10((i - k) as nat),
            ;
        }
        acc = acc * 10 + d as u128;
        i += 1;
    }
    proof {
        assert(s@.subrange(k as int, n as int) == u);
        assert(acc == dec_val(t));
    }
    if acc <= u64::MAX as u128 {
        Some(acc as u64)
    } else {
        None
    }
}

pub fn parse_u64(s: &Vec<u8>) -> (r: Option<u64>)
    ensures
        r == parse_u64_spec(s@),
{
    proof {
        assert(s@.skip(0) == s@);
    }
    parse_u64_from(s, 0)
}

pub const MINUS: u8 = 45u8;

pub const PLUS: u8 = 43u8;

/// The signed value denoted by `s`: an optional `+` or `-` sign followed by
/// digits, as `i64::from_str` reads it. `None` when malformed or out of
/// range.
pub open spec fn parse_i64_spec(s: Seq<u8>) -> Option<i64> {
    if s.len() == 0 {
        None
    } else if s[0] == MINUS {
        match parse_u64_spec(s.skip(1)) {
            Some(m) => if m <= 0x8000_0000_0000_0000u64 {
                Some((-(m as int)) as i64)
            } else {
                None
            },
            None => None,
        }
    } else {
        let t = if s[0] == PLUS {
            s.skip(1)
        } else {
            s
        };
        match parse_u64_spec(t) {
            Some(m) => if m <= i64::MAX as u64 {
                Some(m as i64)
            } else {
                None
            },
            None => None,
        }
    }
}

pub fn parse_i64(s: &Vec<u8>) -> (r: Option<i64>)
    ensures
        r == parse_i64_spec(s@),
{
    if s.len() == 0 {
        return None;
    }
    if s[0] == MINUS {
        match parse_u64_from(s, 1) {
            Some(m) => {
                if m <= 0x8000_0000_0000_0000u64 {
                    if m == 0x8000_0000_0000_0000u64 {
                        Some(i64::MIN)
                    } else {
                        Some(-(m as i64))
                    }
                } else {
                    None
                }
            },
            None => None,
        }
    } else {
        let start: usize = if s[0] == PLUS {
            1
        } else {
            0
        };
        proof {
            if s@[0] != PLUS {
                assert(s@.skip(0) == s@);
            }
        }
        match parse_u64_from(s, start) {
            Some(m) => {
                if m <= i64::MAX as u64 {
                    Some(m as i64)
                } else {
                    None
                }
            },
            None => None,
        }
    }
}

pub open spec fn parse_i32_spec(s: Seq<u8>) -> Option<i32> {
    match parse_i64_spec(s) {
        Some(v) => if i32::MIN <= v <= i32::MAX {
            Some(v as i32)
        } else {
            None
        },
        None => None,
    }
}

pub fn parse_i32(s: &Vec<u8>) -> (r: Option<i32>)
    ensures
        r == parse_i32_spec(s@),
{
    match parse_i64(s) {
        Some(v) => {
            if i32::MIN as i64 <= v && v <= i32::MAX as i64 {
                Some(v as i32)
            } else {
                None
            }
        },
        None => None,
    }
}

pub open spec fn parse_u32_spec(s: Seq<u8>) -> Option<u32> {
    match parse_u64_spec(s) {
        Some(v) => if v <= u32::MAX as u64 {
            Some(v as u32)
        } else {
            None
        },
        None => None,
    }
}

pub fn parse_u32(s: &Vec<u8>) -> (r: Option<u32>)
    ensures
        r == parse_u32_spec(s@),
{
    match parse_u64(s) {
        Some(v) => {
            if v <= u32::MAX as u64 {
                Some(v as u32)
            } else {
                None
            }
        },
        None => None,
    }
}

/// Split the suffix `s[from..]` at every occurrence of `sep`.
pub fn split_bytes_from(s: &Vec<u8>, from: usize, sep: u8) -> (r: Vec<Vec<u8>>)
    requires
        from <= s@.len(),
    ensures
        seq2(r@) == split_on(s@.skip(from as int), sep),
    decreases s@.len() - from,
{
    let n = s.len();
    let mut i = from;
    while i < n && s[i] != sep
        invariant
            from <= i <= n == s@.len(),
            forall|j: int| from <= j < i ==> s@[j] != sep,
        decreases n - i,
    {
        i += 1;
    }
    let part = copy_range(s, from, i);
    let ghost t = s@.skip(from as int);
    proof {
        assert(forall|j: int| 0 <= j < i - from ==> t[j] == #[trigger] s@[j + from]);
        lemma_split_at_first(t, sep, i - from);
    }
    if i == n {
        let mut out: Vec<Vec<u8>> = Vec::new();
        out.push(part);
        proof {
            assert(t.take(t.len() as int) == t);
            assert(part@ == t);
            assert(seq2(out@) =~= seq![t]);
        }
        out
    } else {
        let rest = split_bytes_from(s, i + 1, sep);
        let mut out: Vec<Vec<u8>> = Vec::new();
        out.push(part);
        let m = rest.len();
        for j in 0..m
            invariant
                m == rest@.len(),
                out@.len() == j + 1,
                out@[0]@ == part@,
                forall|x: int| 0 <= x < j ==> out@[x + 1]@ == (#[trigger] rest@[x])@,
        {
            let q = copy_vec(&rest, j);
            out.push(q);
        }
        proof {
            assert(t[i - from] == s@[i as int]);
            assert(t.take(i - from) == part@);
            assert(t.skip(i - from + 1) == s@.skip(i + 1));
            assert(seq2(out@) =~= seq![part@] + seq2(rest@));
            assert(split_on(t, sep) == seq![t.take(i - from)] + split_on(t.skip(i - from + 1), sep));
        }
        out
    }
}

/// A copy of element `j` of a vector of byte vectors.
pub fn copy_vec(v: &Vec<Vec<u8>>, j: usize) -> (r: Vec<u8>)
    requires
        j < v@.len(),
    ensures
        r@ == v@[j as int]@,
{
    let mut out: Vec<u8> = Vec::new();
    let n = v[j].len();
    for i in 0..n
        invariant
            j < v@.len(),
            n == v@[j as int]@.len(),
            out@ == v@[j as int]@.subrange(0, i as int),
    {
        out.push(v[j][i]);
        proof {
            assert(v@[j as int]@.subrange(0, i + 1) == v@[j as int]@.subrange(0, i as int).push(
                v@[j as int]@[i as int],
            ));
        }
    }
    proof {
        assert(v@[j as int]@.subrange(0, n as int) == v@[j as int]@);
    }
    out
}

pub fn split_bytes(s: &Vec<u8>, sep: u8) -> (r: Vec<Vec<u8>>)
    ensures
        seq2(r@) == split_on(s@, sep),
{
    proof {
        assert(s@.skip(0) == s@);
    }
    split_bytes_from(s, 0, sep)
}

/// Join parts with `sep` between consecutive parts.
pub fn join_bytes(parts: &Vec<Vec<u8>>, sep: u8) -> (r: Vec<u8>)
    ensures
        r@ == join_with(seq2(parts@), sep),
{
    let mut out: Vec<u8> = Vec::new();
    let n = parts.len();
    if n == 0 {
        return out;
    }
    let first = copy_vec(parts, 0);
    append_bytes(&mut out, &first);
    proof {
        assert(seq2(parts@).take(1) =~= seq![parts@[0]@]);
        assert(join_with(seq2(parts@).take(1), sep) == parts@[0]@);
        assert(out@ == parts@[0]@);
    }
    for i in 1..n
        invariant
            1 <= i <= n == parts@.len(),
            out@ == join_with(seq2(parts@).take(i as int), sep),
    {
        out.push(sep);
        let p = copy_vec(parts, i);
        append_bytes(&mut out, &p);
        proof {
            lemma_join_push(seq2(parts@).take(i as int), parts@[i as int]@, sep);
            assert(seq2(parts@).take(i + 1) == seq2(parts@).take(i as int).push(parts@[i as int]@));
        }
    }
    proof {
        assert(seq2(parts@).take(n as int) == seq2(parts@));
    }
    out
}

// ---------------------------------------------------------------------------
// Signed decimal serialization
// ---------------------------------------------------------------------------

/// The canonical decimal string of an integer, with `-` for negatives.
pub open spec fn int_bytes(v: int) -> Seq<u8> {
    if v < 0 {
        seq![MINUS] + dec_digits((-v) as nat)
    } else {
        dec_digits(v as nat)
    }
}

pub fn i64_to_bytes(v: i64) -> (r: Vec<u8>)
    ensures
        r@ == int_bytes(v as int),
{
    if v < 0 {
        let mag: u64 = ((-(v as i128)) as u64);
        let digits = u64_to_dec(mag);
        let mut out: Vec<u8> = Vec::new();
        out.push(MINUS);
        append_bytes(&mut out, &digits);
        proof {
            assert(out@ == seq![MINUS] + dec_digits(mag as nat));
        }
        out
    } else {
        u64_to_dec(v as u64)
    }
}

/// Parsing the canonical decimal string of `v` gives back `v`.
pub proof fn lemma_parse_int_bytes(v: int)
    requires
        i64::MIN <= v <= i64::MAX,
    ensures
        parse_i64_spec(int_bytes(v)) == Some(v as i64),
{
    if v < 0 {
        let s = seq![MINUS] + dec_digits((-v) as nat);
        lemma_dec_digits_props((-v) as nat);
        assert(s[0] == MINUS);
        assert(s.skip(1) == dec_digits((-v) as nat));
        lemma_dec_digits_props((-v) as nat);
        assert(parse_u64_spec(s.skip(1)) == Some(((-v) as nat) as u64)) by {
            assert(dec_val(dec_digits((-v) as nat)) == (-v) as nat);
            assert((-v) as nat <= u64::MAX);
        }
        assert((-v) as nat <= 0x8000_0000_0000_0000);
    } else {
        let s = dec_digits(v as nat);
        lemma_dec_digits_props(v as nat);
        assert(is_digit(s[0]));
        assert(s[0] != MINUS && s[0] != PLUS);
        assert(parse_u64_spec(s) == Some((v as nat) as u64));
    }
}

/// A value below `10^k` has at most `k` digits (and one digit when zero).
pub proof fn lemma_dec_digits_len_le(n: nat, k: nat)
    requires
        n < pow10(k),
        k >= 1,
    ensures
        dec_digits(n).len() <= k,
{
    lemma_dec_digits_props(n);
    if dec_digits(n).len() > k {
        if n == 0 {
        } else {
            lemma_dec_val_lower(dec_digits(n));
            lemma_pow10_mono(k, (dec_digits(n).len() - 1) as nat);
        }
    }
}

/// A digit string never contains a separator that is not a digit.
pub proof fn lemma_digits_free_of(n: nat, sep: u8)
    requires
        !is_digit(sep),
    ensures
        !dec_digits(n).contains(sep),
{
    lemma_dec_digits_props(n);
    assert forall|i: int| 0 <= i < dec_digits(n).len() implies dec_digits(n)[i] != sep by {
        assert(is_digit(dec_digits(n)[i]));
    }
}

/// A joined sequence is at least as long as its first part.
pub proof fn lemma_join_with_len(parts: Seq<Seq<u8>>, sep: u8)
    requires
        parts.len() >= 1,
    ensures
        join_with(parts, sep).len() >= parts[0].len(),
{
    if parts.len() > 1 {
        assert(join_with(parts, sep) == parts[0] + seq![sep] + join_with(parts.drop_first(), sep));
    }
}

// ---------------------------------------------------------------------------
// Trimming
// ---------------------------------------------------------------------------

/// The whitespace bytes that the parsers strip from line ends.
pub open spec fn is_space(b: u8) -> bool {
    b == 32 || b == 9 || b == 13
}

pub open spec fn trim_front_spec(s: Seq<u8>) -> Seq<u8>
    decreases s.len(),
{
    if s.len() > 0 && is_space(s[0]) {
        trim_front_spec(s.drop_first())
    } else {
        s
    }
}

pub open spec fn trim_back_spec(s: Seq<u8>) -> Seq<u8>
    decreases s.len(),
{
    if s.len() > 0 && is_space(s.last()) {
        trim_back_spec(s.drop_last())
    } else {
        s
    }
}

/// `s` with leading and trailing whitespace removed.
pub open spec fn trim_spec(s: Seq<u8>) -> Seq<u8> {
    trim_back_spec(trim_front_spec(s))
}

proof fn lemma_trim_front_skip(s: Seq<u8>, k: int)
    requires
        0 <= k <= s.len(),
        forall|j: int| 0 <= j < k ==> is_space(#[trigger] s[j]),
        k < s.len() ==> !is_space(s[k]),
    ensures
        trim_front_spec(s) == s.skip(k),
    decreases k,
{
    if k == 0 {
        assert(s.skip(0) == s);
    } else {
        assert(is_space(s[0]));
        assert(forall|j: int| 0 <= j < k - 1 ==> s.drop_first()[j] == #[trigger] s[j + 1]);
        lemma_trim_front_skip(s.drop_first(), k - 1);
        assert(s.drop_first().skip(k - 1) == s.skip(k));
    }
}

proof fn lemma_trim_back_take(s: Seq<u8>, k: int)
    requires
        0 <= k <= s.len(),
        forall|j: int| k <= j < s.len() ==> is_space(#[trigger] s[j]),
        k > 0 ==> !is_space(s[k - 1]),
    ensures
        trim_back_spec(s) == s.take(k),
    decreases s.len(),
{
    if k == s.len() {
        if s.len() == 0 || !is_space(s.last()) {
            assert(s.take(k) == s);
        } else {
            assert(!is_space(s[k - 1]));
            assert(false);
        }
    } else {
        assert(is_space(s.last()));
        lemma_trim_back_take(s.drop_last(), k);
        assert(s.drop_last().take(k) == s.take(k));
    }
}

/// `s` with leading and trailing whitespace removed.
pub fn trim_bytes(s: &Vec<u8>) -> (r: Vec<u8>)
    ensures
        r@ == trim_spec(s@),
{
    let n = s.len();
    let mut a: usize = 0;
    while a < n && (s[a] == 32 || s[a] == 9 || s[a] == 13)
        invariant
            0 <= a <= n == s@.len(),
            forall|j: int| 0 <= j < a ==> is_space(#[trigger] s@[j]),
        decreases n - a,
    {
        a += 1;
    }
    let mut b: usize = n;
    while b > a && (s[b - 1] == 32 || s[b - 1] == 9 || s[b - 1] == 13)
        invariant
            a <= b <= n == s@.len(),
            forall|j: int| b <= j < n ==> is_space(#[trigger] s@[j]),
        decreases b,
    {
        b -= 1;
    }
    let r = copy_range(s, a, b);
    proof {
        lemma_trim_front_skip(s@, a as int);
        let t = s@.skip(a as int);
        assert(forall|j: int| 0 <= j < t.len() ==> t[j] == #[trigger] s@[j + a]);
        lemma_trim_back_take(t, b - a);
        assert(t.take(b - a) == s@.subrange(a as int, b as int));
    }
    r
}


pub proof fn lemma_pow10_20()
    ensures
        pow10(20) == 0x5_6bc7_5e2d_6310_0000,
{
    reveal_with_fuel(pow10, 21);
}

pub proof fn lemma_pow10_mono(a: nat, b: nat)
    requires
        a <= b,
    ensures
        pow10(a) <= pow10(b),
    decreases b,
{
    if a < b {
        lemma_pow10_mono(a, (b - 1) as nat);
        assert(pow10(b) == 10 * pow10((b - 1) as nat));
    }
}

// ---------------------------------------------------------------------------
// Lines
// ---------------------------------------------------------------------------

pub const NL: u8 = 10u8;

pub const SP: u8 = 32u8;

/// The lines of a text, as `str::lines` yields them: split at every
/// newline, with one trailing empty line dropped.
pub open spec fn split_lines_spec(s: Seq<u8>) -> Seq<Seq<u8>> {
    let raw = split_on(s, NL);
    if raw.len() > 1 && raw.last().len() == 0 {
        raw.drop_last()
    } else {
        raw
    }
}

pub fn split_lines(s: &Vec<u8>) -> (r: Vec<Vec<u8>>)
    ensures
        seq2(r@) == split_lines_spec(s@),
{
    let mut raw = split_bytes(s, NL);
    proof {
        lemma_split_len(s@, NL);
    }
    if raw.len() > 1 {
        let last_empty = raw[raw.len() - 1].len() == 0;
        if last_empty {
            let ghost before = raw@;
            raw.pop();
            proof {
                assert(seq2(raw@) =~= seq2(before).drop_last());
                assert(split_on(s@, NL).last().len() == 0);
            }
        }
    }
    raw
}

/// Newline-terminated lines joined back: splitting recovers them.
pub proof fn lemma_lines_round_trip(parts: Seq<Seq<u8>>)
    requires
        parts.len() >= 1,
        forall|k: int| 0 <= k < parts.len() ==> !(#[trigger] parts[k]).contains(NL),
    ensures
        split_lines_spec(join_with(parts, NL) + seq![NL]) == parts,
{
    let with_tail = parts.push(Seq::<u8>::empty());
    lemma_join_push(parts, Seq::<u8>::empty(), NL);
    assert(join_with(with_tail, NL) == join_with(parts, NL) + seq![NL] + Seq::<u8>::empty());
    assert(join_with(parts, NL) + seq![NL] + Seq::<u8>::empty() =~= join_with(parts, NL) + seq![
        NL,
    ]);
    assert(forall|k: int| 0 <= k < with_tail.len() ==> !(#[trigger] with_tail[k]).contains(NL))
        by {
        assert(!Seq::<u8>::empty().contains(NL));
        assert(forall|k: int| 0 <= k < parts.len() ==> with_tail[k] == #[trigger] parts[k]);
    }
    lemma_split_join(with_tail, NL);
    assert(split_on(join_with(parts, NL) + seq![NL], NL) == with_tail);
    assert(with_tail.len() > 1);
    assert(with_tail.last().len() == 0);
    assert(with_tail.drop_last() =~= parts);
}

/// Trimming changes nothing when neither end is whitespace.
pub proof fn lemma_trim_id(s: Seq<u8>)
    requires
        s.len() >= 1,
        !is_space(s[0]),
        !is_space(s.last()),
    ensures
        trim_spec(s) == s,
{
    assert(trim_front_spec(s) == s);
    assert(trim_back_spec(s) == s);
}


/// Splitting ASCII bytes yields ASCII parts.
pub proof fn lemma_split_ascii(s: Seq<u8>, sep: u8)
    requires
        forall|i: int| 0 <= i < s.len() ==> (#[trigger] s[i]) < 128,
    ensures
        forall|k: int, x: int|
            #![trigger split_on(s, sep)[k][x]]
            0 <= k < split_on(s, sep).len() && 0 <= x < split_on(s, sep)[k].len() ==> split_on(
                s,
                sep,
            )[k][x] < 128,
    decreases s.len(),
{
    if s.len() == 0 {
    } else {
        assert(forall|i: int| 0 <= i < s.drop_first().len() ==> (#[trigger] s.drop_first()[i])
            < 128) by {
            assert(forall|i: int|
                0 <= i < s.len() - 1 ==> s.drop_first()[i] == #[trigger] s[i + 1]);
        }
        lemma_split_ascii(s.drop_first(), sep);
        let rest = split_on(s.drop_first(), sep);
        lemma_split_len(s.drop_first(), sep);
        if s[0] == sep {
            assert forall|k: int, x: int|
                #![trigger split_on(s, sep)[k][x]]
                0 <= k < split_on(s, sep).len() && 0 <= x < split_on(s, sep)[k].len() implies
                split_on(s, sep)[k][x] < 128 by {
                if k >= 1 {
                    assert(split_on(s, sep)[k] == rest[k - 1]);
                }
            }
        } else {
            assert forall|k: int, x: int|
                #![trigger split_on(s, sep)[k][x]]
                0 <= k < split_on(s, sep).len() && 0 <= x < split_on(s, sep)[k].len() implies
                split_on(s, sep)[k][x] < 128 by {
                if k == 0 {
                    assert(split_on(s, sep)[0] == seq![s[0]] + rest[0]);
                    if x >= 1 {
                        assert(split_on(s, sep)[0][x] == rest[0][x - 1]);
                    }
                } else {
                    assert(split_on(s, sep)[k] == rest.drop_first()[k - 1]);
                    assert(rest.drop_first()[k - 1] == rest[k]);
                }
            }
        }
    }
}

/// Trimming ASCII bytes yields ASCII bytes.
pub proof fn lemma_trim_ascii(s: Seq<u8>)
    requires
        forall|i: int| 0 <= i < s.len() ==> (#[trigger] s[i]) < 128,
    ensures
        forall|i: int| 0 <= i < trim_spec(s).len() ==> (#[trigger] trim_spec(s)[i]) < 128,
{
    lemma_trim_front_ascii(s);
    lemma_trim_back_ascii(trim_front_spec(s));
}

proof fn lemma_trim_front_ascii(s: Seq<u8>)
    requires
        forall|i: int| 0 <= i < s.len() ==> (#[trigger] s[i]) < 128,
    ensures
        forall|i: int|
            0 <= i < trim_front_spec(s).len() ==> (#[trigger] trim_front_spec(s)[i]) < 128,
    decreases s.len(),
{
    if s.len() > 0 && is_space(s[0]) {
        assert(forall|i: int| 0 <= i < s.drop_first().len() ==> (#[trigger] s.drop_first()[i])
            < 128) by {
            assert(forall|i: int|
                0 <= i < s.len() - 1 ==> s.drop_first()[i] == #[trigger] s[i + 1]);
        }
        lemma_trim_front_ascii(s.drop_first());
        assert(trim_front_spec(s) == trim_front_spec(s.drop_first()));
    } else {
        assert(trim_front_spec(s) == s);
    }
}

proof fn lemma_trim_back_ascii(s: Seq<u8>)
    requires
        forall|i: int| 0 <= i < s.len() ==> (#[trigger] s[i]) < 128,
    ensures
        forall|i: int|
            0 <= i < trim_back_spec(s).len() ==> (#[trigger] trim_back_spec(s)[i]) < 128,
    decreases s.len(),
{
    if s.len() > 0 && is_space(s.last()) {
        assert(forall|i: int| 0 <= i < s.drop_last().len() ==> (#[trigger] s.drop_last()[i])
            < 128);
        lemma_trim_back_ascii(s.drop_last());
        assert(trim_back_spec(s) == trim_back_spec(s.drop_last()));
    } else {
        assert(trim_back_spec(s) == s);
    }
}


} // verus!
