//! The WCNF instance model: a weighted DIMACS formula, its text form, and
//! the operation that conjoins a cube as hard unit clauses.

use crate::clause::Clause;
use crate::cnf::clause_line;
use crate::cube::Cube;
use crate::strings::{all_ascii, ascii_string, ascii_view, char_bytes, str_to_bytes};
use crate::text::{
    dec_digits, dec_val, int_bytes, is_digit, is_space, join_with, lemma_dec_digits_props,
    lemma_join_push, lemma_lines_round_trip, lemma_parse_int_bytes, lemma_split_join,
    lemma_split_len, lemma_trim_id, parse_i32, parse_i32_spec, parse_u32_spec,
    seq2, split_bytes, split_lines, split_lines_spec, split_on, trim_bytes, trim_spec, u64_to_dec,
    NL, SP, ZERO_DIGIT,
};
use crate::tree_gen::lit_var;
use vstd::prelude::*;

verus! {

/// A structured WCNF parse error, carrying a human-readable message.
#[derive(Debug, Clone)]
pub struct WcnfErr(pub String);

/// A WCNF formula: variable count, clause count, the weight that marks a
/// clause as hard, and the weighted clauses.
#[derive(Debug, Clone, PartialEq, Eq)]
pub struct Wcnf {
    pub num_vars: u32,
    pub num_clauses: u32,
    pub hard_weight: u32,
    pub clauses: Vec<(u32, Clause)>,
}

/// The views of a weighted clause list.
pub open spec fn wclauses_view(cs: Seq<(u32, Clause)>) -> Seq<(u32, Seq<i32>)> {
    cs.map(|_i: int, c: (u32, Clause)| (c.0, c.1.0@))
}

/// The greatest variable mentioned by any clause (zero when none is).
pub open spec fn max_var_lits(lits: Seq<i32>) -> int
    decreases lits.len(),
{
    if lits.len() == 0 {
        0
    } else {
        let prior = max_var_lits(lits.drop_last());
        let v = lit_var(lits.last() as int);
        if v > prior {
            v
        } else {
            prior
        }
    }
}

pub open spec fn max_var_clauses(cs: Seq<(u32, Seq<i32>)>) -> int
    decreases cs.len(),
{
    if cs.len() == 0 {
        0
    } else {
        let prior = max_var_clauses(cs.drop_last());
        let v = max_var_lits(cs.last().1);
        if v > prior {
            v
        } else {
            prior
        }
    }
}

// ---------------------------------------------------------------------------
// Text form
// ---------------------------------------------------------------------------

/// `p wcnf ` — the header tag.
pub open spec fn wcnf_header_tag() -> Seq<u8> {
    seq![112u8, 32u8, 119u8, 99u8, 110u8, 102u8, 32u8]
}

/// The header line body of a WCNF: `p wcnf V C H`.
pub open spec fn wcnf_header_line(nv: int, nc: int, hw: int) -> Seq<u8> {
    wcnf_header_tag() + dec_digits(nv as nat) + seq![SP] + dec_digits(nc as nat) + seq![SP]
        + dec_digits(hw as nat)
}

/// One weighted clause as a line body: the weight, then the literals
/// joined by spaces, then ` 0`.
pub open spec fn wclause_line(w: int, lits: Seq<i32>) -> Seq<u8> {
    dec_digits(w as nat) + seq![SP] + clause_line(lits)
}

/// All lines of a WCNF text, header first.
pub open spec fn wcnf_lines(nv: int, nc: int, hw: int, cs: Seq<(u32, Seq<i32>)>) -> Seq<Seq<u8>> {
    seq![wcnf_header_line(nv, nc, hw)] + Seq::new(
        cs.len(),
        |i: int| wclause_line(cs[i].0 as int, cs[i].1),
    )
}

/// The full text of a WCNF: its lines, each terminated by a newline.
pub open spec fn wcnf_bytes(nv: int, nc: int, hw: int, cs: Seq<(u32, Seq<i32>)>) -> Seq<u8> {
    join_with(wcnf_lines(nv, nc, hw, cs), NL) + seq![NL]
}

// ---------------------------------------------------------------------------
// Parsing
// ---------------------------------------------------------------------------

/// The literal tokens of a weighted clause line: literals are collected
/// until a token denoting zero, which ends the clause; anything after the
/// zero is ignored.
pub open spec fn scan_lits(toks: Seq<Seq<u8>>) -> Option<Seq<i32>>
    decreases toks.len(),
{
    if toks.len() == 0 {
        Some(Seq::<i32>::empty())
    } else {
        match parse_i32_spec(toks[0]) {
            Some(l) => if l == 0 {
                Some(Seq::<i32>::empty())
            } else {
                match scan_lits(toks.drop_first()) {
                    Some(rest) => Some(seq![l] + rest),
                    None => None,
                }
            },
            None => None,
        }
    }
}

/// A weighted clause line: trimmed, split on spaces; the first token is
/// the weight and the rest are scanned for literals.
pub open spec fn parse_wclause_line_spec(line: Seq<u8>) -> Option<(u32, Seq<i32>)> {
    let toks = split_on(trim_spec(line), SP);
    match parse_u32_spec(toks[0]) {
        Some(w) => match scan_lits(toks.drop_first()) {
            Some(lits) => Some((w, lits)),
            None => None,
        },
        None => None,
    }
}

/// The header line: trimmed, exactly `p wcnf V C H`.
pub open spec fn parse_wcnf_header_spec(line: Seq<u8>) -> Option<(u32, u32, u32)> {
    let toks = split_on(trim_spec(line), SP);
    if toks.len() == 5 && toks[0] == seq![112u8] && toks[1] == seq![119u8, 99u8, 110u8, 102u8] {
        match (parse_u32_spec(toks[2]), parse_u32_spec(toks[3]), parse_u32_spec(toks[4])) {
            (Some(v), Some(c), Some(h)) => Some((v, c, h)),
            _ => None,
        }
    } else {
        None
    }
}

pub open spec fn parse_wclause_lines(lines: Seq<Seq<u8>>) -> Option<Seq<(u32, Seq<i32>)>>
    decreases lines.len(),
{
    if lines.len() == 0 {
        Some(Seq::<(u32, Seq<i32>)>::empty())
    } else {
        match (parse_wclause_line_spec(lines[0]), parse_wclause_lines(lines.drop_first())) {
            (Some(c), Some(rest)) => Some(seq![c] + rest),
            _ => None,
        }
    }
}

/// The WCNF denoted by a text: a header line, then one weighted clause
/// per line. The variable count is recomputed as the greatest variable
/// any clause mentions; the declared one is ignored.
pub open spec fn parse_wcnf_spec(s: Seq<u8>) -> Option<(u32, u32, Seq<(u32, Seq<i32>)>)> {
    let lines = split_lines_spec(s);
    if lines.len() == 0 {
        None
    } else {
        match (parse_wcnf_header_spec(lines[0]), parse_wclause_lines(lines.drop_first())) {
            (Some((_v, c, h)), Some(cs)) => Some((c, h, cs)),
            _ => None,
        }
    }
}

// ---------------------------------------------------------------------------
// Executable serialization
// ---------------------------------------------------------------------------

impl Wcnf {
    /// The weighted DIMACS text of this formula, as bytes.
    pub fn to_bytes(&self) -> (r: Vec<u8>)
        ensures
            r@ == wcnf_bytes(
                self.num_vars as int,
                self.num_clauses as int,
                self.hard_weight as int,
                wclauses_view(self.clauses@),
            ),
    {
        let ghost cs = wclauses_view(self.clauses@);
        let mut out: Vec<u8> = Vec::new();
        out.push(112u8);
        out.push(32u8);
        out.push(119u8);
        out.push(99u8);
        out.push(110u8);
        out.push(102u8);
        out.push(32u8);
        let nv = u64_to_dec(self.num_vars as u64);
        crate::text::append_bytes(&mut out, &nv);
        out.push(SP);
        let nc = u64_to_dec(self.num_clauses as u64);
        crate::text::append_bytes(&mut out, &nc);
        out.push(SP);
        let hw = u64_to_dec(self.hard_weight as u64);
        crate::text::append_bytes(&mut out, &hw);
        let ghost header = wcnf_header_line(
            self.num_vars as int,
            self.num_clauses as int,
            self.hard_weight as int,
        );
        let ghost all = wcnf_lines(
            self.num_vars as int,
            self.num_clauses as int,
            self.hard_weight as int,
            cs,
        );
        proof {
            assert(out@ =~= header);
            assert(all.take(1) =~= seq![header]);
            assert(join_with(all.take(1), NL) == out@);
        }
        let n = self.clauses.len();
        for i in 0..n
            invariant
                n == self.clauses@.len(),
                cs == wclauses_view(self.clauses@),
                all == wcnf_lines(
                    self.num_vars as int,
                    self.num_clauses as int,
                    self.hard_weight as int,
                    cs,
                ),
                out@ == join_with(all.take(i + 1), NL),
        {
            out.push(NL);
            let w = u64_to_dec(self.clauses[i].0 as u64);
            crate::text::append_bytes(&mut out, &w);
            out.push(SP);
            let line = crate::cnf::clause_line_bytes(&self.clauses[i].1.0);
            crate::text::append_bytes(&mut out, &line);
            proof {
                lemma_join_push(all.take(i + 1), all[i + 1], NL);
                assert(all.take(i + 2) == all.take(i + 1).push(all[i + 1]));
                assert(all[i + 1] == wclause_line(cs[i as int].0 as int, cs[i as int].1));
                assert(cs[i as int].0 == self.clauses@[i as int].0);
                assert(cs[i as int].1 == self.clauses@[i as int].1.0@);
                assert(out@ =~= join_with(all.take(i + 1), NL) + seq![NL] + all[i + 1]);
            }
        }
        out.push(NL);
        proof {
            assert(all.take(n + 1) == all);
        }
        out
    }

    /// The weighted DIMACS text of this formula.
    pub fn to_text(&self) -> (r: String)
        ensures
            r@ == ascii_view(
                wcnf_bytes(
                    self.num_vars as int,
                    self.num_clauses as int,
                    self.hard_weight as int,
                    wclauses_view(self.clauses@),
                ),
            ),
    {
        let bytes = self.to_bytes();
        proof {
            lemma_wcnf_bytes_ascii(
                self.num_vars as int,
                self.num_clauses as int,
                self.hard_weight as int,
                wclauses_view(self.clauses@),
            );
        }
        ascii_string(bytes)
    }
}

/// Every byte of a WCNF text is ASCII.
pub proof fn lemma_wcnf_bytes_ascii(nv: int, nc: int, hw: int, cs: Seq<(u32, Seq<i32>)>)
    requires
        nv >= 0,
        nc >= 0,
        hw >= 0,
    ensures
        forall|i: int|
            0 <= i < wcnf_bytes(nv, nc, hw, cs).len() ==> (#[trigger] wcnf_bytes(
                nv,
                nc,
                hw,
                cs,
            )[i]) < 128,
{
    let lines = wcnf_lines(nv, nc, hw, cs);
    assert forall|k: int, j: int|
        #![trigger lines[k][j]]
        0 <= k < lines.len() && 0 <= j < lines[k].len() implies lines[k][j] < 128 by {
        if k == 0 {
            lemma_wcnf_header_props(nv, nc, hw);
        } else {
            lemma_wclause_line_props(cs[k - 1].0 as int, cs[k - 1].1);
            assert(lines[k] == wclause_line(cs[k - 1].0 as int, cs[k - 1].1));
        }
    }
    crate::cnf::lemma_join_ascii(lines, NL);
    let s = wcnf_bytes(nv, nc, hw, cs);
    assert forall|i: int| 0 <= i < s.len() implies (#[trigger] s[i]) < 128 by {
        if i < join_with(lines, NL).len() {
            assert(s[i] == join_with(lines, NL)[i]);
        } else {
            assert(s[i] == NL);
        }
    }
}

proof fn lemma_wcnf_header_props(nv: int, nc: int, hw: int)
    requires
        nv >= 0,
        nc >= 0,
        hw >= 0,
    ensures
        forall|j: int|
            0 <= j < wcnf_header_line(nv, nc, hw).len() ==> (#[trigger] wcnf_header_line(
                nv,
                nc,
                hw,
            )[j]) < 128 && wcnf_header_line(nv, nc, hw)[j] != NL,
{
    lemma_dec_digits_props(nv as nat);
    lemma_dec_digits_props(nc as nat);
    lemma_dec_digits_props(hw as nat);
    let s = wcnf_header_line(nv, nc, hw);
    let a = wcnf_header_tag();
    let b = dec_digits(nv as nat);
    let c = dec_digits(nc as nat);
    let d = dec_digits(hw as nat);
    assert forall|j: int| 0 <= j < s.len() implies (#[trigger] s[j]) < 128 && s[j] != NL by {
        if j < a.len() {
            assert(s[j] == a[j]);
        } else if j < a.len() + b.len() {
            assert(s[j] == b[j - a.len()]);
            assert(is_digit(s[j]));
        } else if j == a.len() + b.len() {
            assert(s[j] == SP);
        } else if j < a.len() + b.len() + 1 + c.len() {
            assert(s[j] == c[j - a.len() - b.len() - 1]);
            assert(is_digit(s[j]));
        } else if j == a.len() + b.len() + 1 + c.len() {
            assert(s[j] == SP);
        } else {
            assert(s[j] == d[j - a.len() - b.len() - c.len() - 2]);
            assert(is_digit(s[j]));
        }
    }
}

proof fn lemma_wclause_line_props(w: int, lits: Seq<i32>)
    requires
        w >= 0,
    ensures
        forall|j: int|
            0 <= j < wclause_line(w, lits).len() ==> (#[trigger] wclause_line(w, lits)[j]) < 128
                && wclause_line(w, lits)[j] != NL,
{
    lemma_dec_digits_props(w as nat);
    crate::cnf::lemma_clause_line_ascii(lits);
    let s = wclause_line(w, lits);
    let a = dec_digits(w as nat);
    let b = clause_line(lits);
    assert forall|j: int| 0 <= j < s.len() implies (#[trigger] s[j]) < 128 && s[j] != NL by {
        if j < a.len() {
            assert(s[j] == a[j]);
            assert(is_digit(s[j]));
        } else if j == a.len() {
            assert(s[j] == SP);
        } else {
            assert(s[j] == b[j - a.len() - 1]);
        }
    }
}

// ---------------------------------------------------------------------------
// Executable parsing
// ---------------------------------------------------------------------------

/// Variables mentioned by literals stay within `2^31`.
proof fn lemma_max_var_lits_bounds(lits: Seq<i32>)
    ensures
        0 <= max_var_lits(lits) <= 0x8000_0000,
    decreases lits.len(),
{
    if lits.len() > 0 {
        lemma_max_var_lits_bounds(lits.drop_last());
    }
}

proof fn lemma_max_var_clauses_bounds(cs: Seq<(u32, Seq<i32>)>)
    ensures
        0 <= max_var_clauses(cs) <= 0x8000_0000,
    decreases cs.len(),
{
    if cs.len() == 0 {
    } else {
        lemma_max_var_clauses_bounds(cs.drop_last());
        lemma_max_var_lits_bounds(cs.last().1);
    }
}

/// The greatest variable a literal vector mentions.
fn max_var_of(lits: &Vec<i32>) -> (r: u32)
    ensures
        r == max_var_lits(lits@),
{
    proof {
        lemma_max_var_lits_bounds(lits@);
    }
    let mut best: u32 = 0;
    let n = lits.len();
    for i in 0..n
        invariant
            n == lits@.len(),
            best == max_var_lits(lits@.subrange(0, i as int)),
            best <= 0x8000_0000,
    {
        let l = lits[i];
        let v: u32 = if l < 0 {
            ((-(l as i64)) as u32)
        } else {
            l as u32
        };
        proof {
            assert(lits@.subrange(0, i + 1).drop_last() == lits@.subrange(0, i as int));
            assert(lits@.subrange(0, i + 1).last() == lits@[i as int]);
            lemma_max_var_lits_bounds(lits@.subrange(0, i + 1));
        }
        if v > best {
            best = v;
        }
    }
    proof {
        assert(lits@.subrange(0, n as int) == lits@);
    }
    best
}

/// The weight and literals of one weighted clause line.
pub fn parse_wclause_line(line: &Vec<u8>) -> (r: Option<(u32, Vec<i32>)>)
    ensures
        match r {
            Some((w, v)) => parse_wclause_line_spec(line@) == Some((w, v@)),
            None => parse_wclause_line_spec(line@) is None,
        },
{
    let trimmed = trim_bytes(line);
    let toks = split_bytes(&trimmed, SP);
    proof {
        lemma_split_len(trimmed@, SP);
        assert(toks@[0]@ == split_on(trim_spec(line@), SP)[0]);
    }
    let w = match crate::text::parse_u32(&toks[0]) {
        Some(w) => w,
        None => {
            return None;
        },
    };
    let ghost body = seq2(toks@).drop_first();
    let mut lits: Vec<i32> = Vec::new();
    let n = toks.len();
    proof {
        assert(body.skip(0) == body);
        match scan_lits(body) {
            Some(rest) => {
                assert(lits@ + rest =~= rest);
            },
            None => {},
        }
        assert(seq2(toks@) == split_on(trim_spec(line@), SP));
        assert(seq2(toks@)[0] == toks@[0]@);
        assert(parse_u32_spec(split_on(trim_spec(line@), SP)[0]) == Some(w));
        assert(forall|x: int| 1 <= x < n ==> (#[trigger] toks@[x])@ == body[x - 1]) by {
            assert(forall|x: int|
                0 <= x < body.len() ==> body[x] == #[trigger] seq2(toks@)[x + 1]);
        }
        assert(split_on(trim_spec(line@), SP).drop_first() == body);
    }
    let mut i: usize = 1;
    while i < n
        invariant
            1 <= i <= n == toks@.len(),
            body == seq2(toks@).drop_first(),
            scan_lits(body.skip(i - 1)) matches Some(rest) ==> scan_lits(body) == Some(
                lits@ + rest,
            ),
            scan_lits(body.skip(i - 1)) is None ==> scan_lits(body) is None,
            forall|x: int| 1 <= x < n ==> (#[trigger] toks@[x])@ == body[x - 1],
            match scan_lits(body) {
                Some(l) => parse_wclause_line_spec(line@) == Some((w, l)),
                None => parse_wclause_line_spec(line@) is None,
            },
        decreases n - i,
    {
        proof {
            assert(body[i - 1] == toks@[i as int]@);
        }
        let l = match parse_i32(&toks[i]) {
            Some(l) => l,
            None => {
                proof {
                    let tail = body.skip(i - 1);
                    assert(tail[0] == body[i - 1]);
                    assert(parse_i32_spec(tail[0]) is None);
                }
                return None;
            },
        };
        if l == 0 {
            proof {
                let tail = body.skip(i - 1);
                assert(tail[0] == body[i - 1]);
                assert(scan_lits(tail) == Some(Seq::<i32>::empty()));
                assert(lits@ + Seq::<i32>::empty() =~= lits@);
            }
            return Some((w, lits));
        }
        lits.push(l);
        proof {
            let tail = body.skip(i - 1);
            let next = body.skip(i as int);
            assert(tail[0] == body[i - 1]);
            assert(tail.drop_first() == next);
            assert(parse_i32_spec(tail[0]) == Some(l));
            if scan_lits(next) is Some {
                let rest = scan_lits(next).unwrap();
                assert(scan_lits(tail) == Some(seq![l] + rest));
                assert(lits@.drop_last() + (seq![l] + rest) =~= lits@ + rest);
            }
        }
        i += 1;
    }
    proof {
        assert(body.skip(n - 1) =~= Seq::<Seq<u8>>::empty());
        assert(body.skip(n - 1).len() == 0);
        assert(scan_lits(body.skip(n - 1)) == Some(Seq::<i32>::empty()));
        assert(lits@ + Seq::<i32>::empty() =~= lits@);
    }
    Some((w, lits))
}

impl Wcnf {
    /// The WCNF denoted by weighted DIMACS text, as bytes. The variable
    /// count is the greatest variable mentioned by any clause.
    pub fn from_bytes(bytes: &Vec<u8>) -> (r: Result<Wcnf, WcnfErr>)
        ensures
            match r {
                Ok(w) => parse_wcnf_spec(bytes@) == Some(
                    (w.num_clauses, w.hard_weight, wclauses_view(w.clauses@)),
                ) && w.num_vars == max_var_clauses(wclauses_view(w.clauses@)),
                Err(_) => parse_wcnf_spec(bytes@) is None,
            },
    {
        let lines = split_lines(bytes);
        proof {
            lemma_split_len(bytes@, NL);
        }
        if lines.len() == 0 {
            return Err(WcnfErr(String::from_str("the text has no header line")));
        }
        proof {
            assert(lines@[0]@ == split_lines_spec(bytes@)[0]);
        }
        let header = trim_bytes(&lines[0]);
        let htoks = split_bytes(&header, SP);
        if htoks.len() != 5 {
            proof {
                assert(split_on(trim_spec(split_lines_spec(bytes@)[0]), SP).len() != 5);
            }
            return Err(WcnfErr(String::from_str("the header is not `p wcnf V C H`")));
        }
        proof {
            assert(htoks@[0]@ == split_on(trim_spec(split_lines_spec(bytes@)[0]), SP)[0]);
            assert(htoks@[1]@ == split_on(trim_spec(split_lines_spec(bytes@)[0]), SP)[1]);
            assert(htoks@[2]@ == split_on(trim_spec(split_lines_spec(bytes@)[0]), SP)[2]);
            assert(htoks@[3]@ == split_on(trim_spec(split_lines_spec(bytes@)[0]), SP)[3]);
            assert(htoks@[4]@ == split_on(trim_spec(split_lines_spec(bytes@)[0]), SP)[4]);
        }
        let p_ok = htoks[0].len() == 1 && htoks[0][0] == 112u8;
        proof {
            if p_ok {
                assert(htoks@[0]@ =~= seq![112u8]);
            }
        }
        if !p_ok {
            return Err(WcnfErr(String::from_str("the header is not `p wcnf V C H`")));
        }
        let t_ok = htoks[1].len() == 4 && htoks[1][0] == 119u8 && htoks[1][1] == 99u8
            && htoks[1][2] == 110u8 && htoks[1][3] == 102u8;
        proof {
            if t_ok {
                assert(htoks@[1]@ =~= seq![119u8, 99u8, 110u8, 102u8]);
            }
        }
        if !t_ok {
            return Err(WcnfErr(String::from_str("the header is not `p wcnf V C H`")));
        }
        if crate::text::parse_u32(&htoks[2]).is_none() {
            return Err(WcnfErr(String::from_str("failed to parse the variable count")));
        }
        let num_clauses = match crate::text::parse_u32(&htoks[3]) {
            Some(c) => c,
            None => {
                return Err(WcnfErr(String::from_str("failed to parse the clause count")));
            },
        };
        let hard_weight = match crate::text::parse_u32(&htoks[4]) {
            Some(h) => h,
            None => {
                return Err(WcnfErr(String::from_str("failed to parse the hard weight")));
            },
        };
        let ghost glines = split_lines_spec(bytes@);
        let ghost body = glines.drop_first();
        let mut clauses: Vec<(u32, Clause)> = Vec::new();
        let mut num_vars: u32 = 0;
        let n = lines.len();
        proof {
            assert(body.skip(0) == body);
            match parse_wclause_lines(body) {
                Some(rest) => {
                    assert(wclauses_view(clauses@) + rest =~= rest);
                },
                None => {},
            }
            lemma_max_var_clauses_bounds(wclauses_view(clauses@));
        }
        for i in 1..n
            invariant
                n == lines@.len(),
                seq2(lines@) == glines,
                glines == split_lines_spec(bytes@),
                body == glines.drop_first(),
                parse_wclause_lines(body.skip(i - 1)) matches Some(rest) ==> parse_wclause_lines(
                    body,
                ) == Some(wclauses_view(clauses@) + rest),
                parse_wclause_lines(body.skip(i - 1)) is None ==> parse_wclause_lines(body)
                    is None,
                num_vars == max_var_clauses(wclauses_view(clauses@)),
                num_vars <= 0x8000_0000,
        {
            proof {
                assert(lines@[i as int]@ == glines[i as int]);
                assert(body[i - 1] == glines[i as int]);
            }
            let (w, lits) = match parse_wclause_line(&lines[i]) {
                Some(p) => p,
                None => {
                    proof {
                        let tail = body.skip(i - 1);
                        assert(tail[0] == body[i - 1]);
                        assert(parse_wclause_line_spec(tail[0]) is None);
                    }
                    return Err(WcnfErr(String::from_str("failed to parse a clause line")));
                },
            };
            let line_max = max_var_of(&lits);
            proof {
                lemma_max_var_lits_bounds(lits@);
            }
            if line_max > num_vars {
                num_vars = line_max;
            }
            let ghost prev = wclauses_view(clauses@);
            let ghost wl = (w, lits@);
            clauses.push((w, Clause(lits)));
            proof {
                let tail = body.skip(i - 1);
                let next = body.skip(i as int);
                assert(tail[0] == body[i - 1]);
                assert(tail.drop_first() == next);
                assert(parse_wclause_line_spec(tail[0]) == Some(wl));
                assert(wclauses_view(clauses@) =~= prev.push(wl));
                assert(wclauses_view(clauses@).drop_last() == prev);
                assert(wclauses_view(clauses@).last() == wl);
                if parse_wclause_lines(next) is Some {
                    let rest = parse_wclause_lines(next).unwrap();
                    assert(parse_wclause_lines(tail) == Some(seq![wl] + rest));
                    assert(prev + (seq![wl] + rest) =~= prev.push(wl) + rest);
                }
            }
        }
        proof {
            assert(body.skip(n - 1) =~= Seq::<Seq<u8>>::empty());
            assert(body.skip(n - 1).len() == 0);
            assert(parse_wclause_lines(body.skip(n - 1)) == Some(Seq::<(u32, Seq<i32>)>::empty()));
            assert(wclauses_view(clauses@) + Seq::<(u32, Seq<i32>)>::empty() =~= wclauses_view(
                clauses@,
            ));
        }
        Ok(Wcnf { num_vars, num_clauses, hard_weight, clauses })
    }

    /// The WCNF denoted by weighted DIMACS text.
    pub fn from_text(s: &str) -> (r: Result<Wcnf, WcnfErr>)
        ensures
            match r {
                Ok(w) => all_ascii(s@) && parse_wcnf_spec(char_bytes(s@)) == Some(
                    (w.num_clauses, w.hard_weight, wclauses_view(w.clauses@)),
                ) && w.num_vars == max_var_clauses(wclauses_view(w.clauses@)),
                Err(_) => !all_ascii(s@) || parse_wcnf_spec(char_bytes(s@)) is None,
            },
    {
        match str_to_bytes(s) {
            Some(bytes) => Wcnf::from_bytes(&bytes),
            None => Err(WcnfErr(String::from_str("the text is not ASCII"))),
        }
    }
}

// ---------------------------------------------------------------------------
// Extension by a cube
// ---------------------------------------------------------------------------

/// Each literal as a hard unit clause.
pub open spec fn hard_unit_clauses(hw: u32, lits: Seq<i32>) -> Seq<(u32, Seq<i32>)> {
    Seq::new(lits.len(), |i: int| (hw, seq![lits[i]]))
}

impl Wcnf {
    /// Conjoin a cube: append each literal as a unit clause carrying the
    /// hard weight, count the new clauses, and widen the variable count.
    pub fn extend_cube(&mut self, cube: &Cube)
        requires
            old(self).num_clauses + cube.0@.len() <= u32::MAX,
        ensures
            final(self).num_vars == crate::cnf::grown_vars(old(self).num_vars as int, cube.0@),
            final(self).num_clauses == old(self).num_clauses + cube.0@.len(),
            final(self).hard_weight == old(self).hard_weight,
            wclauses_view(final(self).clauses@) == wclauses_view(old(self).clauses@)
                + hard_unit_clauses(old(self).hard_weight, cube.0@),
    {
        let n = cube.0.len();
        let ghost lits = cube.0@;
        proof {
            assert(wclauses_view(self.clauses@) =~~= wclauses_view(old(self).clauses@)
                + hard_unit_clauses(old(self).hard_weight, lits.subrange(0, 0)));
        }
        for i in 0..n
            invariant
                n == cube.0@.len(),
                lits == cube.0@,
                old(self).num_clauses + n <= u32::MAX,
                self.num_vars == crate::cnf::grown_vars(
                    old(self).num_vars as int,
                    lits.subrange(0, i as int),
                ),
                self.num_clauses == old(self).num_clauses + i,
                self.hard_weight == old(self).hard_weight,
                wclauses_view(self.clauses@) == wclauses_view(old(self).clauses@)
                    + hard_unit_clauses(old(self).hard_weight, lits.subrange(0, i as int)),
        {
            let l = cube.0[i];
            let abs: u32 = if l < 0 {
                ((-(l as i64)) as u32)
            } else {
                l as u32
            };
            if abs > self.num_vars {
                self.num_vars = abs;
            }
            let mut unit: Vec<i32> = Vec::new();
            unit.push(l);
            let ghost u = unit@;
            let ghost pre = self.clauses@;
            let hw = self.hard_weight;
            self.clauses.push((hw, Clause(unit)));
            self.num_clauses = self.num_clauses + 1;
            proof {
                assert(lits.subrange(0, i + 1).drop_last() == lits.subrange(0, i as int));
                assert(lits.subrange(0, i + 1).last() == lits[i as int]);
                assert(self.clauses@.len() == pre.len() + 1);
                let lhs = wclauses_view(self.clauses@);
                let rhs = wclauses_view(old(self).clauses@) + hard_unit_clauses(
                    old(self).hard_weight,
                    lits.subrange(0, i + 1),
                );
                let oldn = old(self).clauses@.len() as int;
                assert(wclauses_view(pre) == wclauses_view(old(self).clauses@)
                    + hard_unit_clauses(old(self).hard_weight, lits.subrange(0, i as int)));
                assert(wclauses_view(pre).len() == pre.len());
                assert(wclauses_view(old(self).clauses@).len() == oldn);
                assert(hard_unit_clauses(old(self).hard_weight, lits.subrange(0, i as int)).len()
                    == i);
                assert(lhs.len() == self.clauses@.len());
                assert(hard_unit_clauses(old(self).hard_weight, lits.subrange(0, i + 1)).len() == i
                    + 1);
                assert(lhs.len() == rhs.len());
                assert forall|x: int| 0 <= x < lhs.len() implies lhs[x] == rhs[x] by {
                    assert(lhs[x] == (self.clauses@[x].0, self.clauses@[x].1.0@));
                    if x < pre.len() {
                        assert(self.clauses@[x] == pre[x]);
                        assert(wclauses_view(pre)[x] == (pre[x].0, pre[x].1.0@));
                        assert(wclauses_view(pre)[x] == (wclauses_view(old(self).clauses@)
                            + hard_unit_clauses(
                            old(self).hard_weight,
                            lits.subrange(0, i as int),
                        ))[x]);
                        if x < oldn {
                            assert(rhs[x] == wclauses_view(old(self).clauses@)[x]);
                        } else {
                            assert((wclauses_view(old(self).clauses@) + hard_unit_clauses(
                                old(self).hard_weight,
                                lits.subrange(0, i as int),
                            ))[x] == hard_unit_clauses(
                                old(self).hard_weight,
                                lits.subrange(0, i as int),
                            )[x - oldn]);
                            assert(rhs[x] == hard_unit_clauses(
                                old(self).hard_weight,
                                lits.subrange(0, i + 1),
                            )[x - oldn]);
                            assert(lits.subrange(0, i as int)[x - oldn] == lits.subrange(
                                0,
                                i + 1,
                            )[x - oldn]);
                        }
                    } else {
                        assert(self.clauses@[x] == self.clauses@.last());
                        assert(lhs[x] == (old(self).hard_weight, u));
                        assert(rhs[x] == hard_unit_clauses(
                            old(self).hard_weight,
                            lits.subrange(0, i + 1),
                        )[i as int]);
                        assert(u == Seq::<i32>::empty().push(l));
                        assert(lits.subrange(0, i + 1)[i as int] == l);
                    }
                }
                assert(lhs =~= rhs);
            }
        }
        proof {
            assert(lits.subrange(0, n as int) == lits);
        }
    }

    /// The weighted DIMACS text of this formula conjoined with a cube,
    /// leaving the formula itself untouched.
    pub fn extend_cube_str(&self, cube: &Cube) -> (r: String)
        requires
            self.num_clauses + cube.0@.len() <= u32::MAX,
        ensures
            r@ == ascii_view(
                wcnf_bytes(
                    crate::cnf::grown_vars(self.num_vars as int, cube.0@),
                    self.num_clauses + cube.0@.len(),
                    self.hard_weight as int,
                    wclauses_view(self.clauses@) + hard_unit_clauses(self.hard_weight, cube.0@),
                ),
            ),
    {
        let mut copy = self.clone_wcnf();
        copy.extend_cube(cube);
        copy.to_text()
    }

    /// An equal copy of this formula.
    pub fn clone_wcnf(&self) -> (r: Wcnf)
        ensures
            r.num_vars == self.num_vars,
            r.num_clauses == self.num_clauses,
            r.hard_weight == self.hard_weight,
            wclauses_view(r.clauses@) == wclauses_view(self.clauses@),
    {
        let mut clauses: Vec<(u32, Clause)> = Vec::new();
        let n = self.clauses.len();
        for i in 0..n
            invariant
                n == self.clauses@.len(),
                clauses@.len() == i,
                forall|x: int|
                    0 <= x < i ==> (#[trigger] clauses@[x]).0 == self.clauses@[x].0
                        && clauses@[x].1.0@ == self.clauses@[x].1.0@,
        {
            let w = self.clauses[i].0;
            let c = Clause(crate::tree_gen::copy_lits(&self.clauses[i].1.0));
            clauses.push((w, c));
        }
        proof {
            assert(wclauses_view(clauses@) =~= wclauses_view(self.clauses@));
        }
        Wcnf {
            num_vars: self.num_vars,
            num_clauses: self.num_clauses,
            hard_weight: self.hard_weight,
            clauses,
        }
    }
}


// ---------------------------------------------------------------------------
// Round trip
// ---------------------------------------------------------------------------

/// Scanning the serialized tokens of nonzero literals, ended by a `0`
/// token, gives the literals back.
proof fn lemma_scan_lits_map(lits: Seq<i32>)
    requires
        forall|i: int| 0 <= i < lits.len() ==> (#[trigger] lits[i]) != 0,
    ensures
        scan_lits(lits.map(|_i: int, l: i32| int_bytes(l as int)).push(seq![ZERO_DIGIT])) == Some(
            lits,
        ),
    decreases lits.len(),
{
    let f = |_i: int, l: i32| int_bytes(l as int);
    let zero_tok: Seq<u8> = seq![ZERO_DIGIT];
    let all = lits.map(f).push(zero_tok);
    assert(parse_i32_spec(zero_tok) == Some(0i32)) by {
        lemma_dec_digits_props(0);
        assert(zero_tok == dec_digits(0));
        lemma_parse_int_bytes(0);
        assert(int_bytes(0) == dec_digits(0));
    }
    if lits.len() == 0 {
        assert(all =~= seq![zero_tok]);
        assert(all[0] == zero_tok);
        assert(scan_lits(all) == Some(Seq::<i32>::empty()));
        assert(lits =~= Seq::<i32>::empty());
    } else {
        lemma_parse_int_bytes(lits[0] as int);
        assert(all[0] == int_bytes(lits[0] as int));
        assert(parse_i32_spec(all[0]) == Some(lits[0]));
        assert(lits[0] != 0);
        assert(all.drop_first() =~= lits.drop_first().map(f).push(zero_tok));
        assert(forall|i: int|
            0 <= i < lits.drop_first().len() ==> (#[trigger] lits.drop_first()[i]) != 0) by {
            assert(forall|i: int|
                0 <= i < lits.len() - 1 ==> lits.drop_first()[i] == #[trigger] lits[i + 1]);
        }
        lemma_scan_lits_map(lits.drop_first());
        assert(scan_lits(all) == Some(seq![lits[0]] + lits.drop_first()));
        assert(seq![lits[0]] + lits.drop_first() =~= lits);
    }
}

/// Parsing the serialized line of a nonempty clause of nonzero literals
/// gives the weight and clause back.
pub proof fn lemma_parse_wclause_line(w: u32, lits: Seq<i32>)
    requires
        lits.len() >= 1,
        forall|i: int| 0 <= i < lits.len() ==> (#[trigger] lits[i]) != 0,
    ensures
        parse_wclause_line_spec(wclause_line(w as int, lits)) == Some((w, lits)),
{
    let f = |_i: int, l: i32| int_bytes(l as int);
    let parts = lits.map(f);
    let zero_tok: Seq<u8> = seq![ZERO_DIGIT];
    let dw = dec_digits(w as nat);
    let inner = parts.push(zero_tok);
    let full = seq![dw] + inner;
    let line = wclause_line(w as int, lits);
    lemma_dec_digits_props(w as nat);
    lemma_join_push(parts, zero_tok, SP);
    assert(join_with(inner, SP) =~= clause_line(lits));
    assert(full.len() >= 2);
    assert(full[0] == dw);
    assert(full.drop_first() =~= inner);
    assert(join_with(full, SP) == full[0] + seq![SP] + join_with(full.drop_first(), SP));
    assert(join_with(full, SP) =~= line);
    // neither end of the line is whitespace
    assert(line[0] == dw[0]) by {
        assert(join_with(full, SP)[0] == (full[0] + seq![SP] + join_with(
            full.drop_first(),
            SP,
        ))[0]);
    }
    assert(is_digit(line[0]));
    assert(!is_space(line[0]));
    crate::cnf::lemma_clause_line_ascii(lits);
    assert(line.last() == clause_line(lits).last());
    assert(clause_line(lits).last() == ZERO_DIGIT);
    assert(!is_space(line.last()));
    lemma_trim_id(line);
    // no token contains a space
    assert forall|k: int| 0 <= k < full.len() implies !(#[trigger] full[k]).contains(SP) by {
        let t = full[k];
        assert(forall|j: int| 0 <= j < t.len() ==> t[j] != SP) by {
            if k == 0 {
                assert(forall|j: int| 0 <= j < dw.len() ==> is_digit(#[trigger] dw[j]));
            } else if k < full.len() - 1 {
                crate::cnf::lemma_int_bytes_props(lits[k - 1] as int);
                assert(t == int_bytes(lits[k - 1] as int));
            } else {
                assert(t == zero_tok);
            }
        }
        if t.contains(SP) {
            let j = choose|j: int| 0 <= j < t.len() && t[j] == SP;
            assert(false);
        }
    }
    lemma_split_join(full, SP);
    let toks = split_on(trim_spec(line), SP);
    assert(toks == full);
    assert(toks[0] == dw);
    assert(parse_u32_spec(dw) == Some(w)) by {
        assert(dec_val(dw) == w as nat);
    }
    assert(toks.drop_first() =~= inner);
    lemma_scan_lits_map(lits);
}

proof fn lemma_parse_wclause_lines_map(cs: Seq<(u32, Seq<i32>)>)
    requires
        forall|k: int| 0 <= k < cs.len() ==> (#[trigger] cs[k]).1.len() >= 1,
        forall|k: int, i: int|
            #![trigger cs[k].1[i]]
            0 <= k < cs.len() && 0 <= i < cs[k].1.len() ==> cs[k].1[i] != 0,
    ensures
        parse_wclause_lines(Seq::new(cs.len(), |i: int| wclause_line(cs[i].0 as int, cs[i].1)))
            == Some(cs),
    decreases cs.len(),
{
    let lines = Seq::new(cs.len(), |i: int| wclause_line(cs[i].0 as int, cs[i].1));
    if cs.len() == 0 {
        assert(cs =~= Seq::<(u32, Seq<i32>)>::empty());
    } else {
        lemma_parse_wclause_line(cs[0].0, cs[0].1);
        assert(lines[0] == wclause_line(cs[0].0 as int, cs[0].1));
        assert(parse_wclause_line_spec(lines[0]) == Some((cs[0].0, cs[0].1)));
        assert((cs[0].0, cs[0].1) == cs[0]);
        assert(lines.drop_first() =~= Seq::new(cs.drop_first().len(), |i: int| wclause_line(
            cs.drop_first()[i].0 as int,
            cs.drop_first()[i].1,
        )));
        assert(forall|k: int|
            0 <= k < cs.drop_first().len() ==> (#[trigger] cs.drop_first()[k]).1.len() >= 1) by {
            assert(forall|k: int|
                0 <= k < cs.len() - 1 ==> cs.drop_first()[k] == #[trigger] cs[k + 1]);
        }
        assert(forall|k: int, i: int|
            #![trigger cs.drop_first()[k].1[i]]
            0 <= k < cs.drop_first().len() && 0 <= i < cs.drop_first()[k].1.len()
                ==> cs.drop_first()[k].1[i] != 0) by {
            assert(forall|k: int|
                0 <= k < cs.len() - 1 ==> cs.drop_first()[k] == #[trigger] cs[k + 1]);
        }
        lemma_parse_wclause_lines_map(cs.drop_first());
        assert(parse_wclause_lines(lines) == Some(seq![cs[0]] + cs.drop_first()));
        assert(seq![cs[0]] + cs.drop_first() =~= cs);
    }
}

proof fn lemma_wcnf_header_round_trip(nv: int, nc: int, hw: int)
    requires
        0 <= nv <= u32::MAX,
        0 <= nc <= u32::MAX,
        0 <= hw <= u32::MAX,
    ensures
        parse_wcnf_header_spec(wcnf_header_line(nv, nc, hw)) == Some(
            (nv as u32, nc as u32, hw as u32),
        ),
{
    let line = wcnf_header_line(nv, nc, hw);
    let p_tok: Seq<u8> = seq![112u8];
    let wcnf_tok: Seq<u8> = seq![119u8, 99u8, 110u8, 102u8];
    let dv = dec_digits(nv as nat);
    let dc = dec_digits(nc as nat);
    let dh = dec_digits(hw as nat);
    let parts: Seq<Seq<u8>> = seq![p_tok, wcnf_tok, dv, dc, dh];
    lemma_dec_digits_props(nv as nat);
    lemma_dec_digits_props(nc as nat);
    lemma_dec_digits_props(hw as nat);
    assert(join_with(parts, SP) =~= line) by {
        assert(parts.drop_first() =~= seq![wcnf_tok, dv, dc, dh]);
        assert(seq![wcnf_tok, dv, dc, dh].drop_first() =~= seq![dv, dc, dh]);
        assert(seq![dv, dc, dh].drop_first() =~= seq![dc, dh]);
        assert(seq![dc, dh].drop_first() =~= seq![dh]);
        assert(join_with(seq![dh], SP) == dh);
        assert(join_with(seq![dc, dh], SP) == dc + seq![SP] + dh);
        assert(join_with(seq![dv, dc, dh], SP) == dv + seq![SP] + (dc + seq![SP] + dh));
        assert(join_with(seq![wcnf_tok, dv, dc, dh], SP) == wcnf_tok + seq![SP] + (dv + seq![SP] + (
        dc + seq![SP] + dh)));
        assert(join_with(parts, SP) == p_tok + seq![SP] + (wcnf_tok + seq![SP] + (dv + seq![SP] + (
        dc + seq![SP] + dh))));
    }
    assert(line[0] == 112u8);
    assert(!is_space(line[0]));
    assert(line.last() == dh.last()) by {
        assert(line.len() == 7 + dv.len() + 1 + dc.len() + 1 + dh.len());
    }
    assert(is_digit(dh.last()));
    assert(!is_space(line.last()));
    lemma_trim_id(line);
    assert forall|k: int| 0 <= k < parts.len() implies !(#[trigger] parts[k]).contains(SP) by {
        let t = parts[k];
        assert(forall|j: int| 0 <= j < t.len() ==> t[j] != SP) by {
            if k == 0 {
            } else if k == 1 {
            } else if k == 2 {
                assert(forall|j: int| 0 <= j < dv.len() ==> is_digit(#[trigger] dv[j]));
            } else if k == 3 {
                assert(forall|j: int| 0 <= j < dc.len() ==> is_digit(#[trigger] dc[j]));
            } else {
                assert(forall|j: int| 0 <= j < dh.len() ==> is_digit(#[trigger] dh[j]));
            }
        }
        if t.contains(SP) {
            let j = choose|j: int| 0 <= j < t.len() && t[j] == SP;
            assert(false);
        }
    }
    lemma_split_join(parts, SP);
    let toks = split_on(trim_spec(line), SP);
    assert(toks == parts);
    assert(toks[0] == p_tok && toks[1] == wcnf_tok);
    assert(parse_u32_spec(toks[2]) == Some(nv as u32)) by {
        assert(dec_val(dv) == nv as nat);
    }
    assert(parse_u32_spec(toks[3]) == Some(nc as u32)) by {
        assert(dec_val(dc) == nc as nat);
    }
    assert(parse_u32_spec(toks[4]) == Some(hw as u32)) by {
        assert(dec_val(dh) == hw as nat);
    }
}

/// Round trip: parsing the text of a well-formed WCNF (nonempty clauses
/// of nonzero literals) gives back its clause count, hard weight and
/// clauses; the variable count is recovered as the greatest mentioned
/// variable.
pub proof fn lemma_wcnf_round_trip(nv: int, nc: int, hw: int, cs: Seq<(u32, Seq<i32>)>)
    requires
        0 <= nv <= u32::MAX,
        0 <= nc <= u32::MAX,
        0 <= hw <= u32::MAX,
        forall|k: int| 0 <= k < cs.len() ==> (#[trigger] cs[k]).1.len() >= 1,
        forall|k: int, i: int|
            #![trigger cs[k].1[i]]
            0 <= k < cs.len() && 0 <= i < cs[k].1.len() ==> cs[k].1[i] != 0,
    ensures
        parse_wcnf_spec(wcnf_bytes(nv, nc, hw, cs)) == Some((nc as u32, hw as u32, cs)),
{
    let lines = wcnf_lines(nv, nc, hw, cs);
    assert forall|k: int| 0 <= k < lines.len() implies !(#[trigger] lines[k]).contains(NL) by {
        if k == 0 {
            lemma_wcnf_header_props(nv, nc, hw);
            assert(lines[0] == wcnf_header_line(nv, nc, hw));
            if lines[0].contains(NL) {
                let j = choose|j: int| 0 <= j < lines[0].len() && lines[0][j] == NL;
                assert(false);
            }
        } else {
            lemma_wclause_line_props(cs[k - 1].0 as int, cs[k - 1].1);
            assert(lines[k] == wclause_line(cs[k - 1].0 as int, cs[k - 1].1));
            if lines[k].contains(NL) {
                let j = choose|j: int| 0 <= j < lines[k].len() && lines[k][j] == NL;
                assert(false);
            }
        }
    }
    lemma_lines_round_trip(lines);
    assert(split_lines_spec(wcnf_bytes(nv, nc, hw, cs)) == lines);
    lemma_wcnf_header_round_trip(nv, nc, hw);
    assert(lines[0] == wcnf_header_line(nv, nc, hw));
    assert(lines.drop_first() =~= Seq::new(cs.len(), |i: int| wclause_line(
        cs[i].0 as int,
        cs[i].1,
    )));
    lemma_parse_wclause_lines_map(cs);
}


} // verus!
