//! Cube algebra: an ordered sequence of signed literals, interpreted as a
//! conjunction of variable assignments.

use crate::strings::{all_ascii, ascii_string, ascii_view, char_bytes, str_to_bytes};
use crate::text::{
    dec_digits, dec_val, int_bytes, is_digit, join_bytes, join_with, lemma_dec_digits_props,
    lemma_digits_free_of, lemma_join_with_len, lemma_parse_int_bytes, lemma_split_join,
    parse_i32, parse_i32_spec, parse_u64_from, parse_u64_spec, seq2, split_bytes,
    split_on, u64_to_dec, append_bytes,
};
use vstd::prelude::*;

verus! {

/// A cube: an ordered sequence of nonzero signed literals. A positive
/// literal `v` assigns variable `v` true; a negative literal assigns it
/// false. The order is observable (it keys file names and node classes),
/// so two cubes with the same literals in different orders are distinct.
#[derive(Debug, Clone, PartialEq, Eq)]
pub struct Cube(pub Vec<i32>);

impl Cube {
    /// Whether every literal of `self` also appears in `other`.
    pub fn subsumes(&self, other: &Cube) -> (r: bool)
        ensures
            r == forall|i: int| 0 <= i < self.0@.len() ==> other.0@.contains(self.0@[i]),
    {
        let n = self.0.len();
        for i in 0..n
            invariant
                n == self.0@.len(),
                forall|j: int| 0 <= j < i ==> other.0@.contains(self.0@[j]),
        {
            if !contains_literal(&other.0, self.0[i]) {
                return false;
            }
        }
        true
    }

    /// Both one-literal extensions of this cube by the variable `var`:
    /// first with the positive literal appended, then with the negative one.
    pub fn extend(&self, var: u32) -> (r: (Cube, Cube))
        requires
            0 < var <= i32::MAX,
        ensures
            r.0.0@ == self.0@.push(var as i32),
            r.1.0@ == self.0@.push((-(var as int)) as i32),
    {
        let mut v1 = self.0.clone();
        let mut v2 = self.0.clone();
        v1.push(var as i32);
        v2.push(-(var as i32));
        (Cube(v1), Cube(v2))
    }

    /// This cube with the given literals appended, in order.
    pub fn extend_vars(&self, vars: Vec<i32>) -> (r: Cube)
        ensures
            r.0@ == self.0@ + vars@,
    {
        let mut new_vec = self.0.clone();
        let n = vars.len();
        for i in 0..n
            invariant
                n == vars@.len(),
                new_vec@ == self.0@ + vars@.subrange(0, i as int),
        {
            new_vec.push(vars[i]);
            proof {
                assert(vars@.subrange(0, i + 1) == vars@.subrange(0, i as int).push(vars@[i as int]));
            }
        }
        proof {
            assert(vars@.subrange(0, n as int) == vars@);
        }
        Cube(new_vec)
    }

    /// Whether the literal `var` appears in this cube (sign included).
    pub fn contains_var(&self, var: i32) -> (r: bool)
        ensures
            r == self.0@.contains(var),
    {
        contains_literal(&self.0, var)
    }
}

/// Whether `lit` occurs in `v`.
pub fn contains_literal(v: &Vec<i32>, lit: i32) -> (r: bool)
    ensures
        r == v@.contains(lit),
{
    let n = v.len();
    for i in 0..n
        invariant
            n == v@.len(),
            forall|j: int| 0 <= j < i ==> v@[j] != lit,
    {
        if v[i] == lit {
            return true;
        }
    }
    false
}

/// Every cube subsumes itself.
pub proof fn lemma_subsumes_refl(c: Seq<i32>)
    ensures
        forall|i: int| 0 <= i < c.len() ==> c.contains(c[i]),
{
    assert forall|i: int| 0 <= i < c.len() implies c.contains(c[i]) by {
        assert(c[i] == c[i]);
    }
}

/// Extension law: extending a cube by a variable yields one cube that
/// contains the positive literal and one that contains the negative one.
pub proof fn lemma_extend_contains(c: Seq<i32>, var: u32)
    requires
        0 < var <= i32::MAX,
    ensures
        c.push(var as i32).contains(var as i32),
        c.push((-(var as int)) as i32).contains((-(var as int)) as i32),
{
    assert(c.push(var as i32)[c.len() as int] == var as i32);
    assert(c.push((-(var as int)) as i32)[c.len() as int] == (-(var as int)) as i32);
}

/// A cube that subsumes another without being subsumed by it in turn is
/// strictly shorter, provided neither repeats a literal. (Two cubes with
/// the same literals in different orders subsume each other while staying
/// the same length, so mutual subsumption has to be excluded.)
pub proof fn lemma_proper_subsumption_shorter(a: Seq<i32>, b: Seq<i32>)
    requires
        a.no_duplicates(),
        b.no_duplicates(),
        forall|i: int| 0 <= i < a.len() ==> b.contains(#[trigger] a[i]),
        exists|j: int| 0 <= j < b.len() && !a.contains(#[trigger] b[j]),
    ensures
        a.len() < b.len(),
{
    broadcast use vstd::seq_lib::group_seq_properties;

    a.unique_seq_to_set();
    b.unique_seq_to_set();
    let j = choose|j: int| 0 <= j < b.len() && !a.contains(#[trigger] b[j]);
    let w = b[j];
    assert(b.to_set().contains(w));
    assert(!a.to_set().contains(w));
    let shrunk = b.to_set().remove(w);
    assert(a.to_set().subset_of(shrunk)) by {
        assert forall|x: i32| a.to_set().contains(x) implies shrunk.contains(x) by {
            assert(a.contains(x));
            assert(b.to_set().contains(x));
        }
    }
    vstd::set_lib::lemma_len_subset(a.to_set(), shrunk);
    assert(shrunk.len() == b.to_set().len() - 1);
}

// ---------------------------------------------------------------------------
// Serialization: literals joined by `_`, negative signs written as `n`
// ---------------------------------------------------------------------------

/// `_`, the separator between serialized literals.
pub const LIT_SEP: u8 = 95u8;

/// `n`, the sign marker of a serialized negative literal.
pub const LIT_NEG: u8 = 110u8;

/// The serialized bytes of one literal.
pub open spec fn lit_bytes(l: int) -> Seq<u8> {
    if l < 0 {
        seq![LIT_NEG] + dec_digits((-l) as nat)
    } else {
        dec_digits(l as nat)
    }
}

/// The serialized bytes of a whole cube; the empty cube is empty text.
pub open spec fn cube_bytes(lits: Seq<i32>) -> Seq<u8> {
    join_with(lits.map(|_i: int, l: i32| lit_bytes(l as int)), LIT_SEP)
}

/// The literal denoted by one serialized token.
pub open spec fn parse_lit_spec(s: Seq<u8>) -> Option<i32> {
    if s.len() >= 1 && s[0] == LIT_NEG {
        match parse_u64_spec(s.skip(1)) {
            Some(m) => if m <= 0x8000_0000u64 {
                Some((-(m as int)) as i32)
            } else {
                None
            },
            None => None,
        }
    } else {
        parse_i32_spec(s)
    }
}

pub open spec fn parse_lit_seq(parts: Seq<Seq<u8>>) -> Option<Seq<i32>>
    decreases parts.len(),
{
    if parts.len() == 0 {
        Some(Seq::<i32>::empty())
    } else {
        match (parse_lit_spec(parts[0]), parse_lit_seq(parts.drop_first())) {
            (Some(l), Some(rest)) => Some(seq![l] + rest),
            _ => None,
        }
    }
}

/// The cube denoted by serialized text: empty text is the empty cube;
/// otherwise every `_`-separated token must denote a literal.
pub open spec fn parse_cube_spec(s: Seq<u8>) -> Option<Seq<i32>> {
    if s.len() == 0 {
        Some(Seq::<i32>::empty())
    } else {
        parse_lit_seq(split_on(s, LIT_SEP))
    }
}

/// The serialized token of one literal.
pub fn lit_to_bytes(l: i32) -> (r: Vec<u8>)
    ensures
        r@ == lit_bytes(l as int),
{
    if l < 0 {
        let mag: u64 = (-(l as i64)) as u64;
        let digits = u64_to_dec(mag);
        let mut out: Vec<u8> = Vec::new();
        out.push(LIT_NEG);
        append_bytes(&mut out, &digits);
        proof {
            assert(out@ == seq![LIT_NEG] + dec_digits(mag as nat));
        }
        out
    } else {
        u64_to_dec(l as u64)
    }
}

pub fn parse_lit(s: &Vec<u8>) -> (r: Option<i32>)
    ensures
        r == parse_lit_spec(s@),
{
    if s.len() >= 1 && s[0] == LIT_NEG {
        match parse_u64_from(s, 1) {
            Some(m) => {
                if m <= 0x8000_0000u64 {
                    if m == 0x8000_0000u64 {
                        Some(i32::MIN)
                    } else {
                        Some(-(m as i32))
                    }
                } else {
                    None
                }
            },
            None => None,
        }
    } else {
        parse_i32(s)
    }
}

impl Cube {
    /// The serialized bytes of this cube.
    pub fn to_bytes(&self) -> (r: Vec<u8>)
        ensures
            r@ == cube_bytes(self.0@),
    {
        let ghost f = |_i: int, l: i32| lit_bytes(l as int);
        let mut parts: Vec<Vec<u8>> = Vec::new();
        let n = self.0.len();
        for i in 0..n
            invariant
                n == self.0@.len(),
                parts@.len() == i,
                forall|x: int| 0 <= x < i ==> (#[trigger] parts@[x])@ == lit_bytes(self.0@[x] as int),
        {
            let p = lit_to_bytes(self.0[i]);
            parts.push(p);
        }
        proof {
            assert(seq2(parts@) =~= self.0@.map(f));
        }
        join_bytes(&parts, LIT_SEP)
    }

    /// The serialized text of this cube (the empty cube is empty text).
    pub fn to_text(&self) -> (r: String)
        ensures
            r@ == ascii_view(cube_bytes(self.0@)),
    {
        let bytes = self.to_bytes();
        proof {
            lemma_cube_bytes_ascii(self.0@);
        }
        ascii_string(bytes)
    }

    /// The cube denoted by serialized text, or `None` when the text is not
    /// a cube serialization.
    pub fn from_text(s: &str) -> (r: Option<Cube>)
        ensures
            match r {
                Some(c) => all_ascii(s@) && parse_cube_spec(char_bytes(s@)) == Some(c.0@),
                None => !all_ascii(s@) || parse_cube_spec(char_bytes(s@)) is None,
            },
    {
        let bytes = match str_to_bytes(s) {
            Some(b) => b,
            None => {
                return None;
            },
        };
        Self::from_bytes(&bytes)
    }

    /// The cube denoted by serialized bytes.
    pub fn from_bytes(bytes: &Vec<u8>) -> (r: Option<Cube>)
        ensures
            match r {
                Some(c) => parse_cube_spec(bytes@) == Some(c.0@),
                None => parse_cube_spec(bytes@) is None,
            },
    {
        if bytes.len() == 0 {
            return Some(Cube(Vec::new()));
        }
        let parts = split_bytes(bytes, LIT_SEP);
        let mut lits: Vec<i32> = Vec::new();
        let n = parts.len();
        proof {
            assert(seq2(parts@).skip(0) == seq2(parts@));
            match parse_lit_seq(seq2(parts@)) {
                Some(rest) => {
                    assert(lits@ + rest =~= rest);
                },
                None => {},
            }
        }
        for i in 0..n
            invariant
                n == parts@.len(),
                seq2(parts@) == split_on(bytes@, LIT_SEP),
                bytes@.len() > 0,
                parse_lit_seq(seq2(parts@).skip(i as int)) matches Some(rest) ==> parse_lit_seq(
                    seq2(parts@),
                ) == Some(lits@ + rest),
                parse_lit_seq(seq2(parts@).skip(i as int)) is None ==> parse_lit_seq(seq2(parts@))
                    is None,
        {
            let l = match parse_lit(&parts[i]) {
                Some(l) => l,
                None => {
                    proof {
                        let tail = seq2(parts@).skip(i as int);
                        assert(tail[0] == seq2(parts@)[i as int]);
                        assert(parse_lit_spec(tail[0]) is None);
                        assert(parse_lit_seq(tail) is None);
                    }
                    return None;
                },
            };
            lits.push(l);
            proof {
                let tail = seq2(parts@).skip(i as int);
                let next = seq2(parts@).skip(i + 1);
                assert(tail[0] == seq2(parts@)[i as int]);
                assert(tail.drop_first() == next);
                assert(parse_lit_spec(tail[0]) == Some(l));
                if parse_lit_seq(next) is Some {
                    let rest = parse_lit_seq(next).unwrap();
                    assert(parse_lit_seq(tail) == Some(seq![l] + rest));
                    assert(lits@.drop_last() + (seq![l] + rest) =~= lits@ + rest);
                }
            }
        }
        proof {
            assert(seq2(parts@).skip(n as int) == Seq::<Seq<u8>>::empty());
            assert(parse_lit_seq(seq2(parts@).skip(n as int)) == Some(Seq::<i32>::empty()));
            assert(lits@ + Seq::<i32>::empty() == lits@);
        }
        Some(Cube(lits))
    }
}

/// Every byte of a serialized cube is ASCII.
pub proof fn lemma_cube_bytes_ascii(lits: Seq<i32>)
    ensures
        forall|i: int| 0 <= i < cube_bytes(lits).len() ==> (#[trigger] cube_bytes(lits)[i]) < 128,
    decreases lits.len(),
{
    let f = |_i: int, l: i32| lit_bytes(l as int);
    if lits.len() == 0 {
    } else if lits.len() == 1 {
        assert(cube_bytes(lits) == lit_bytes(lits[0] as int));
        lemma_lit_bytes_ascii(lits[0] as int);
    } else {
        let parts = lits.map(f);
        assert(cube_bytes(lits) == parts[0] + seq![LIT_SEP] + join_with(parts.drop_first(), LIT_SEP));
        assert(parts.drop_first() =~= lits.drop_first().map(f));
        lemma_cube_bytes_ascii(lits.drop_first());
        lemma_lit_bytes_ascii(lits[0] as int);
        assert(parts[0] == lit_bytes(lits[0] as int));
        assert forall|i: int| 0 <= i < cube_bytes(lits).len() implies (#[trigger] cube_bytes(
            lits,
        )[i]) < 128 by {
            let s = cube_bytes(lits);
            let p0 = parts[0];
            if i < p0.len() {
                assert(s[i] == p0[i]);
            } else if i == p0.len() {
                assert(s[i] == LIT_SEP);
            } else {
                assert(s[i] == cube_bytes(lits.drop_first())[i - p0.len() - 1]);
            }
        }
    }
}

pub proof fn lemma_lit_bytes_ascii(l: int)
    ensures
        forall|i: int| 0 <= i < lit_bytes(l).len() ==> (#[trigger] lit_bytes(l)[i]) < 128,
        lit_bytes(l).len() >= 1,
        !lit_bytes(l).contains(LIT_SEP),
{
    if l < 0 {
        lemma_dec_digits_props((-l) as nat);
        lemma_digits_free_of((-l) as nat, LIT_SEP);
        let s = lit_bytes(l);
        assert forall|i: int| 0 <= i < s.len() implies (#[trigger] s[i]) < 128 && s[i] != LIT_SEP by {
            if i == 0 {
            } else {
                assert(s[i] == dec_digits((-l) as nat)[i - 1]);
                assert(is_digit(s[i]));
            }
        }
        assert forall|i: int| 0 <= i < s.len() implies s[i] != LIT_SEP by {}
        if s.contains(LIT_SEP) {
            let i = choose|i: int| 0 <= i < s.len() && s[i] == LIT_SEP;
            assert(false);
        }
    } else {
        lemma_dec_digits_props(l as nat);
        lemma_digits_free_of(l as nat, LIT_SEP);
        assert forall|i: int| 0 <= i < lit_bytes(l).len() implies (#[trigger] lit_bytes(l)[i])
            < 128 by {
            assert(is_digit(lit_bytes(l)[i]));
        }
    }
}

/// Parsing the serialized token of a literal gives the literal back.
pub proof fn lemma_parse_lit_round_trip(l: i32)
    ensures
        parse_lit_spec(lit_bytes(l as int)) == Some(l),
{
    if l < 0 {
        let m = (-(l as int)) as nat;
        let s = lit_bytes(l as int);
        lemma_dec_digits_props(m);
        assert(s[0] == LIT_NEG);
        assert(s.skip(1) == dec_digits(m));
        assert(parse_u64_spec(s.skip(1)) == Some(m as u64)) by {
            assert(dec_val(dec_digits(m)) == m);
        }
        assert(m <= 0x8000_0000);
    } else {
        let s = lit_bytes(l as int);
        lemma_dec_digits_props(l as nat);
        assert(is_digit(s[0]));
        assert(s[0] != LIT_NEG);
        lemma_parse_int_bytes(l as int);
        assert(int_bytes(l as int) == s);
    }
}

/// Round trip: parsing a serialized cube gives the cube back, for every
/// sequence of literals.
pub proof fn lemma_cube_round_trip(lits: Seq<i32>)
    ensures
        parse_cube_spec(cube_bytes(lits)) == Some(lits),
{
    let f = |_i: int, l: i32| lit_bytes(l as int);
    let parts = lits.map(f);
    if lits.len() == 0 {
        assert(parts.len() == 0);
        assert(cube_bytes(lits) == Seq::<u8>::empty());
        assert(lits =~= Seq::<i32>::empty());
    } else {
        assert forall|k: int| 0 <= k < parts.len() implies !(#[trigger] parts[k]).contains(LIT_SEP)
            by {
            lemma_lit_bytes_ascii(lits[k] as int);
        }
        lemma_split_join(parts, LIT_SEP);
        lemma_join_with_len(parts, LIT_SEP);
        lemma_lit_bytes_ascii(lits[0] as int);
        assert(cube_bytes(lits).len() >= 1);
        lemma_parse_lit_seq_map(lits);
    }
}

proof fn lemma_parse_lit_seq_map(lits: Seq<i32>)
    ensures
        parse_lit_seq(lits.map(|_i: int, l: i32| lit_bytes(l as int))) == Some(lits),
    decreases lits.len(),
{
    let f = |_i: int, l: i32| lit_bytes(l as int);
    let parts = lits.map(f);
    if lits.len() == 0 {
        assert(lits =~= Seq::<i32>::empty());
    } else {
        lemma_parse_lit_round_trip(lits[0]);
        assert(parts[0] == lit_bytes(lits[0] as int));
        assert(parts.drop_first() =~= lits.drop_first().map(f));
        lemma_parse_lit_seq_map(lits.drop_first());
        assert(parse_lit_seq(parts) == Some(seq![lits[0]] + lits.drop_first()));
        assert(seq![lits[0]] + lits.drop_first() =~= lits);
    }
}

} // verus!
