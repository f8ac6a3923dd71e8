//! The CNF instance model: a DIMACS formula, its text form, and the
//! operation that conjoins a cube as unit clauses.

use crate::clause::Clause;
use crate::cube::Cube;
use crate::strings::{all_ascii, ascii_string, ascii_view, char_bytes, str_to_bytes};
use crate::text::{
    dec_digits, dec_val, int_bytes, is_digit, is_space, join_with, lemma_dec_digits_props,
    lemma_join_push, lemma_join_with_len,
    lemma_lines_round_trip, lemma_parse_int_bytes, lemma_split_join, lemma_split_len,
    lemma_trim_id, parse_i32, parse_i32_spec, parse_u32_spec, parse_u64, parse_u64_spec, seq2,
    split_bytes, split_lines, split_lines_spec, split_on, trim_bytes, trim_spec, u64_to_dec, NL,
    SP, ZERO_DIGIT,
};
use vstd::prelude::*;

verus! {

/// A structured CNF parse error, carrying a human-readable message.
#[derive(Debug, Clone)]
pub struct CnfErr(pub String);

/// A CNF formula: the declared variable count, the declared clause count,
/// and the clauses.
#[derive(Debug, Clone, PartialEq, Eq)]
pub struct Cnf {
    pub num_vars: u32,
    pub num_clauses: usize,
    pub clauses: Vec<Clause>,
}

/// The views of a clause list.
pub open spec fn clauses_view(cs: Seq<Clause>) -> Seq<Seq<i32>> {
    cs.map(|_i: int, c: Clause| c.0@)
}

// ---------------------------------------------------------------------------
// Text form
// ---------------------------------------------------------------------------

/// `p cnf ` — the header tag.
pub open spec fn cnf_header_tag() -> Seq<u8> {
    seq![112u8, 32u8, 99u8, 110u8, 102u8, 32u8]
}

/// One clause as a line body: the literals joined by spaces, then ` 0`.
pub open spec fn clause_line(lits: Seq<i32>) -> Seq<u8> {
    join_with(lits.map(|_i: int, l: i32| int_bytes(l as int)), SP) + seq![SP, ZERO_DIGIT]
}

/// The header line body of a CNF.
pub open spec fn cnf_header_line(nv: int, nc: int) -> Seq<u8> {
    cnf_header_tag() + dec_digits(nv as nat) + seq![SP] + dec_digits(nc as nat)
}

/// All lines of a CNF text, header first.
pub open spec fn cnf_lines(nv: int, nc: int, cs: Seq<Seq<i32>>) -> Seq<Seq<u8>> {
    seq![cnf_header_line(nv, nc)] + Seq::new(cs.len(), |i: int| clause_line(cs[i]))
}

/// The full text of a CNF: its lines, each terminated by a newline.
pub open spec fn cnf_bytes(nv: int, nc: int, cs: Seq<Seq<i32>>) -> Seq<u8> {
    join_with(cnf_lines(nv, nc, cs), NL) + seq![NL]
}

// ---------------------------------------------------------------------------
// Parsing
// ---------------------------------------------------------------------------

/// The literals of a token list (all tokens must parse).
pub open spec fn parse_i32_toks(toks: Seq<Seq<u8>>) -> Option<Seq<i32>>
    decreases toks.len(),
{
    if toks.len() == 0 {
        Some(Seq::<i32>::empty())
    } else {
        match (parse_i32_spec(toks[0]), parse_i32_toks(toks.drop_first())) {
            (Some(l), Some(rest)) => Some(seq![l] + rest),
            _ => None,
        }
    }
}

/// A clause line: trimmed, split on spaces, the last token must denote 0
/// and the rest are the literals.
pub open spec fn parse_clause_line_spec(line: Seq<u8>) -> Option<Seq<i32>> {
    let toks = split_on(trim_spec(line), SP);
    match parse_i32_spec(toks.last()) {
        Some(z) => if z == 0 {
            parse_i32_toks(toks.drop_last())
        } else {
            None
        },
        None => None,
    }
}

/// The header line: trimmed, exactly `p cnf V C`.
pub open spec fn parse_cnf_header_spec(line: Seq<u8>) -> Option<(u32, u64)> {
    let toks = split_on(trim_spec(line), SP);
    if toks.len() == 4 && toks[0] == seq![112u8] && toks[1] == seq![99u8, 110u8, 102u8] {
        match (parse_u32_spec(toks[2]), parse_u64_spec(toks[3])) {
            (Some(v), Some(c)) => Some((v, c)),
            _ => None,
        }
    } else {
        None
    }
}

pub open spec fn parse_clause_lines(lines: Seq<Seq<u8>>) -> Option<Seq<Seq<i32>>>
    decreases lines.len(),
{
    if lines.len() == 0 {
        Some(Seq::<Seq<i32>>::empty())
    } else {
        match (parse_clause_line_spec(lines[0]), parse_clause_lines(lines.drop_first())) {
            (Some(c), Some(rest)) => Some(seq![c] + rest),
            _ => None,
        }
    }
}

/// The CNF denoted by a text: a header line, then one clause per line,
/// with the declared clause count matching the number parsed.
pub open spec fn parse_cnf_spec(s: Seq<u8>) -> Option<(u32, u64, Seq<Seq<i32>>)> {
    let lines = split_lines_spec(s);
    if lines.len() == 0 {
        None
    } else {
        match (parse_cnf_header_spec(lines[0]), parse_clause_lines(lines.drop_first())) {
            (Some((v, c)), Some(cs)) => if c == cs.len() {
                Some((v, c, cs))
            } else {
                None
            },
            _ => None,
        }
    }
}

// ---------------------------------------------------------------------------
// Executable serialization
// ---------------------------------------------------------------------------

/// The line body of one clause.
pub fn clause_line_bytes(lits: &Vec<i32>) -> (r: Vec<u8>)
    ensures
        r@ == clause_line(lits@),
{
    let mut parts: Vec<Vec<u8>> = Vec::new();
    let n = lits.len();
    for i in 0..n
        invariant
            n == lits@.len(),
            parts@.len() == i,
            forall|x: int| 0 <= x < i ==> (#[trigger] parts@[x])@ == int_bytes(lits@[x] as int),
    {
        let p = crate::text::i64_to_bytes(lits[i] as i64);
        parts.push(p);
    }
    let mut out = crate::text::join_bytes(&parts, SP);
    proof {
        assert(seq2(parts@) =~= lits@.map(|_i: int, l: i32| int_bytes(l as int)));
    }
    out.push(SP);
    out.push(ZERO_DIGIT);
    proof {
        assert(out@ =~= clause_line(lits@));
    }
    out
}

impl Cnf {
    /// The DIMACS text of this formula, as bytes.
    pub fn to_bytes(&self) -> (r: Vec<u8>)
        ensures
            r@ == cnf_bytes(self.num_vars as int, self.num_clauses as int, clauses_view(self.clauses@)),
    {
        let ghost cs = clauses_view(self.clauses@);
        let mut out: Vec<u8> = Vec::new();
        out.push(112u8);
        out.push(32u8);
        out.push(99u8);
        out.push(110u8);
        out.push(102u8);
        out.push(32u8);
        let nv = u64_to_dec(self.num_vars as u64);
        crate::text::append_bytes(&mut out, &nv);
        out.push(SP);
        let nc = u64_to_dec(self.num_clauses as u64);
        crate::text::append_bytes(&mut out, &nc);
        proof {
            assert(out@ =~= cnf_header_line(self.num_vars as int, self.num_clauses as int));
            assert(cnf_lines(self.num_vars as int, self.num_clauses as int, cs).take(1) =~= seq![
                cnf_header_line(self.num_vars as int, self.num_clauses as int),
            ]);
            assert(join_with(
                cnf_lines(self.num_vars as int, self.num_clauses as int, cs).take(1),
                NL,
            ) == out@);
        }
        let n = self.clauses.len();
        for i in 0..n
            invariant
                n == self.clauses@.len(),
                cs == clauses_view(self.clauses@),
                out@ == join_with(
                    cnf_lines(self.num_vars as int, self.num_clauses as int, cs).take(i + 1),
                    NL,
                ),
        {
            out.push(NL);
            let line = clause_line_bytes(&self.clauses[i].0);
            crate::text::append_bytes(&mut out, &line);
            proof {
                let all = cnf_lines(self.num_vars as int, self.num_clauses as int, cs);
                lemma_join_push(all.take(i + 1), all[i + 1], NL);
                assert(all.take(i + 2) == all.take(i + 1).push(all[i + 1]));
                assert(all[i + 1] == clause_line(cs[i as int]));
                assert(cs[i as int] == self.clauses@[i as int].0@);
            }
        }
        out.push(NL);
        proof {
            let all = cnf_lines(self.num_vars as int, self.num_clauses as int, cs);
            assert(all.take(n + 1) == all);
        }
        out
    }

    /// The DIMACS text of this formula.
    pub fn to_text(&self) -> (r: String)
        ensures
            r@ == ascii_view(
                cnf_bytes(self.num_vars as int, self.num_clauses as int, clauses_view(self.clauses@)),
            ),
    {
        let bytes = self.to_bytes();
        proof {
            lemma_cnf_bytes_ascii(
                self.num_vars as int,
                self.num_clauses as int,
                clauses_view(self.clauses@),
            );
        }
        ascii_string(bytes)
    }
}

/// Every byte of a CNF text is ASCII.
pub proof fn lemma_cnf_bytes_ascii(nv: int, nc: int, cs: Seq<Seq<i32>>)
    requires
        nv >= 0,
        nc >= 0,
    ensures
        forall|i: int|
            0 <= i < cnf_bytes(nv, nc, cs).len() ==> (#[trigger] cnf_bytes(nv, nc, cs)[i]) < 128,
{
    let lines = cnf_lines(nv, nc, cs);
    assert forall|k: int, j: int|
        #![trigger lines[k][j]]
        0 <= k < lines.len() && 0 <= j < lines[k].len() implies lines[k][j] < 128 by {
        if k == 0 {
            lemma_header_line_ascii(nv, nc);
        } else {
            lemma_clause_line_ascii(cs[k - 1]);
            assert(lines[k] == clause_line(cs[k - 1]));
        }
    }
    lemma_join_ascii(lines, NL);
    let s = cnf_bytes(nv, nc, cs);
    assert forall|i: int| 0 <= i < s.len() implies (#[trigger] s[i]) < 128 by {
        if i < join_with(lines, NL).len() {
            assert(s[i] == join_with(lines, NL)[i]);
        } else {
            assert(s[i] == NL);
        }
    }
}

proof fn lemma_header_line_ascii(nv: int, nc: int)
    requires
        nv >= 0,
        nc >= 0,
    ensures
        forall|j: int|
            0 <= j < cnf_header_line(nv, nc).len() ==> (#[trigger] cnf_header_line(nv, nc)[j])
                < 128 && cnf_header_line(nv, nc)[j] != NL,
{
    lemma_dec_digits_props(nv as nat);
    lemma_dec_digits_props(nc as nat);
    let s = cnf_header_line(nv, nc);
    let a = cnf_header_tag();
    let b = dec_digits(nv as nat);
    let c = dec_digits(nc as nat);
    assert forall|j: int| 0 <= j < s.len() implies (#[trigger] s[j]) < 128 && s[j] != NL by {
        if j < a.len() {
            assert(s[j] == a[j]);
        } else if j < a.len() + b.len() {
            assert(s[j] == b[j - a.len()]);
            assert(is_digit(s[j]));
        } else if j == a.len() + b.len() {
            assert(s[j] == SP);
        } else {
            assert(s[j] == c[j - a.len() - b.len() - 1]);
            assert(is_digit(s[j]));
        }
    }
}

/// Every byte of a clause line is ASCII, and none is a newline.
pub proof fn lemma_clause_line_ascii(lits: Seq<i32>)
    ensures
        forall|j: int|
            0 <= j < clause_line(lits).len() ==> (#[trigger] clause_line(lits)[j]) < 128
                && clause_line(lits)[j] != NL,
{
    let parts = lits.map(|_i: int, l: i32| int_bytes(l as int));
    assert forall|k: int, j: int|
        #![trigger parts[k][j]]
        0 <= k < parts.len() && 0 <= j < parts[k].len() implies parts[k][j] < 128
        && parts[k][j] != NL by {
        lemma_int_bytes_props(lits[k] as int);
        assert(parts[k] == int_bytes(lits[k] as int));
    }
    lemma_join_ascii(parts, SP);
    lemma_join_no_byte(parts, SP, NL);
    let s = clause_line(lits);
    let joined = join_with(parts, SP);
    assert forall|j: int| 0 <= j < s.len() implies (#[trigger] s[j]) < 128 && s[j] != NL by {
        if j < joined.len() {
            assert(s[j] == joined[j]);
        } else if j == joined.len() {
            assert(s[j] == SP);
        } else {
            assert(s[j] == ZERO_DIGIT);
        }
    }
}

/// The bytes of a serialized integer: ASCII, not whitespace.
pub proof fn lemma_int_bytes_props(v: int)
    ensures
        forall|j: int|
            0 <= j < int_bytes(v).len() ==> (#[trigger] int_bytes(v)[j]) < 128 && int_bytes(v)[j]
                != NL && int_bytes(v)[j] != SP && !is_space(int_bytes(v)[j]),
{
    let s = int_bytes(v);
    if v < 0 {
        lemma_dec_digits_props((-v) as nat);
        assert forall|j: int| 0 <= j < s.len() implies (#[trigger] s[j]) < 128 && s[j] != NL && s[j]
            != SP && !is_space(s[j]) by {
            if j == 0 {
            } else {
                assert(s[j] == dec_digits((-v) as nat)[j - 1]);
                assert(is_digit(s[j]));
            }
        }
    } else {
        lemma_dec_digits_props(v as nat);
        assert forall|j: int| 0 <= j < s.len() implies (#[trigger] s[j]) < 128 && s[j] != NL && s[j]
            != SP && !is_space(s[j]) by {
            assert(is_digit(s[j]));
        }
    }
}

/// Joining parts whose bytes are ASCII with an ASCII separator stays ASCII.
pub proof fn lemma_join_ascii(parts: Seq<Seq<u8>>, sep: u8)
    requires
        sep < 128,
        forall|k: int, j: int|
            #![trigger parts[k][j]]
            0 <= k < parts.len() && 0 <= j < parts[k].len() ==> parts[k][j] < 128,
    ensures
        forall|i: int|
            0 <= i < join_with(parts, sep).len() ==> (#[trigger] join_with(parts, sep)[i]) < 128,
    decreases parts.len(),
{
    if parts.len() <= 1 {
    } else {
        assert(forall|k: int, j: int|
            #![trigger parts.drop_first()[k][j]]
            0 <= k < parts.drop_first().len() && 0 <= j < parts.drop_first()[k].len()
                ==> parts.drop_first()[k][j] < 128) by {
            assert(forall|k: int|
                0 <= k < parts.len() - 1 ==> parts.drop_first()[k] == #[trigger] parts[k + 1]);
        }
        lemma_join_ascii(parts.drop_first(), sep);
        let s = join_with(parts, sep);
        let h = parts[0];
        let t = join_with(parts.drop_first(), sep);
        assert(s == h + seq![sep] + t);
        assert forall|i: int| 0 <= i < s.len() implies (#[trigger] s[i]) < 128 by {
            if i < h.len() {
                assert(s[i] == h[i]);
            } else if i == h.len() {
                assert(s[i] == sep);
            } else {
                assert(s[i] == t[i - h.len() - 1]);
            }
        }
    }
}

/// A byte absent from every part and different from the separator is
/// absent from the joined text.
pub proof fn lemma_join_no_byte(parts: Seq<Seq<u8>>, sep: u8, b: u8)
    requires
        sep != b,
        forall|k: int, j: int|
            #![trigger parts[k][j]]
            0 <= k < parts.len() && 0 <= j < parts[k].len() ==> parts[k][j] != b,
    ensures
        forall|i: int|
            0 <= i < join_with(parts, sep).len() ==> (#[trigger] join_with(parts, sep)[i]) != b,
    decreases parts.len(),
{
    if parts.len() <= 1 {
    } else {
        assert(forall|k: int, j: int|
            #![trigger parts.drop_first()[k][j]]
            0 <= k < parts.drop_first().len() && 0 <= j < parts.drop_first()[k].len()
                ==> parts.drop_first()[k][j] != b) by {
            assert(forall|k: int|
                0 <= k < parts.len() - 1 ==> parts.drop_first()[k] == #[trigger] parts[k + 1]);
        }
        lemma_join_no_byte(parts.drop_first(), sep, b);
        let s = join_with(parts, sep);
        let h = parts[0];
        let t = join_with(parts.drop_first(), sep);
        assert(s == h + seq![sep] + t);
        assert forall|i: int| 0 <= i < s.len() implies (#[trigger] s[i]) != b by {
            if i < h.len() {
                assert(s[i] == h[i]);
            } else if i == h.len() {
                assert(s[i] == sep);
            } else {
                assert(s[i] == t[i - h.len() - 1]);
            }
        }
    }
}

// ---------------------------------------------------------------------------
// Executable parsing
// ---------------------------------------------------------------------------

/// The literals of a clause line, or `None` when the line is not one.
pub fn parse_clause_line(line: &Vec<u8>) -> (r: Option<Vec<i32>>)
    ensures
        match r {
            Some(v) => parse_clause_line_spec(line@) == Some(v@),
            None => parse_clause_line_spec(line@) is None,
        },
{
    let trimmed = trim_bytes(line);
    let toks = split_bytes(&trimmed, SP);
    proof {
        lemma_split_len(trimmed@, SP);
        assert(seq2(toks@).last() == toks@[toks@.len() - 1]@);
    }
    let last = toks.len() - 1;
    match parse_i32(&toks[last]) {
        Some(z) => {
            if z != 0 {
                return None;
            }
        },
        None => {
            return None;
        },
    }
    let ghost body = seq2(toks@).drop_last();
    let mut lits: Vec<i32> = Vec::new();
    proof {
        assert(body.skip(0) == body);
        match parse_i32_toks(body) {
            Some(rest) => {
                assert(lits@ + rest =~= rest);
            },
            None => {},
        }
    }
    for i in 0..last
        invariant
            last == toks@.len() - 1,
            body == seq2(toks@).drop_last(),
            parse_i32_toks(body.skip(i as int)) matches Some(rest) ==> parse_i32_toks(body)
                == Some(lits@ + rest),
            parse_i32_toks(body.skip(i as int)) is None ==> parse_i32_toks(body) is None,
            parse_clause_line_spec(line@) == parse_i32_toks(body),
    {
        proof {
            assert(body[i as int] == toks@[i as int]@);
        }
        let l = match parse_i32(&toks[i]) {
            Some(l) => l,
            None => {
                proof {
                    let tail = body.skip(i as int);
                    assert(tail[0] == body[i as int]);
                    assert(parse_i32_spec(tail[0]) is None);
                }
                return None;
            },
        };
        lits.push(l);
        proof {
            let tail = body.skip(i as int);
            let next = body.skip(i + 1);
            assert(tail[0] == body[i as int]);
            assert(tail.drop_first() == next);
            assert(parse_i32_spec(tail[0]) == Some(l));
            if parse_i32_toks(next) is Some {
                let rest = parse_i32_toks(next).unwrap();
                assert(parse_i32_toks(tail) == Some(seq![l] + rest));
                assert(lits@.drop_last() + (seq![l] + rest) =~= lits@ + rest);
            }
        }
    }
    proof {
        assert(body.skip(last as int) =~= Seq::<Seq<u8>>::empty());
        assert(body.skip(last as int).len() == 0);
        assert(parse_i32_toks(body.skip(last as int)) == Some(Seq::<i32>::empty()));
        assert(lits@ + Seq::<i32>::empty() =~= lits@);
    }
    Some(lits)
}

fn bytes_match(a: &Vec<u8>, b0: u8) -> (r: bool)
    ensures
        r == (a@ =~= seq![b0]),
{
    let r = a.len() == 1 && a[0] == b0;
    proof {
        if r {
            assert(a@ =~= seq![b0]);
        }
    }
    r
}

fn bytes_match3(a: &Vec<u8>, b0: u8, b1: u8, b2: u8) -> (r: bool)
    ensures
        r == (a@ =~= seq![b0, b1, b2]),
{
    let r = a.len() == 3 && a[0] == b0 && a[1] == b1 && a[2] == b2;
    proof {
        if r {
            assert(a@ =~= seq![b0, b1, b2]);
        }
    }
    r
}

impl Cnf {
    /// The CNF denoted by DIMACS text, as bytes.
    pub fn from_bytes(bytes: &Vec<u8>) -> (r: Result<Cnf, CnfErr>)
        ensures
            match r {
                Ok(c) => parse_cnf_spec(bytes@) == Some(
                    (c.num_vars, c.num_clauses as u64, clauses_view(c.clauses@)),
                ),
                Err(_) => parse_cnf_spec(bytes@) is None,
            },
    {
        let lines = split_lines(bytes);
        proof {
            lemma_split_len(bytes@, NL);
        }
        if lines.len() == 0 {
            return Err(CnfErr(String::from_str("the text has no header line")));
        }
        proof {
            assert(lines@[0]@ == split_lines_spec(bytes@)[0]);
        }
        let header = trim_bytes(&lines[0]);
        let htoks = split_bytes(&header, SP);
        if htoks.len() != 4 {
            proof {
                assert(split_on(trim_spec(split_lines_spec(bytes@)[0]), SP).len() != 4);
            }
            return Err(CnfErr(String::from_str("the header is not `p cnf V C`")));
        }
        proof {
            assert(htoks@[0]@ == split_on(trim_spec(split_lines_spec(bytes@)[0]), SP)[0]);
            assert(htoks@[1]@ == split_on(trim_spec(split_lines_spec(bytes@)[0]), SP)[1]);
            assert(htoks@[2]@ == split_on(trim_spec(split_lines_spec(bytes@)[0]), SP)[2]);
            assert(htoks@[3]@ == split_on(trim_spec(split_lines_spec(bytes@)[0]), SP)[3]);
        }
        if !bytes_match(&htoks[0], 112u8) {
            return Err(CnfErr(String::from_str("the header is not `p cnf V C`")));
        }
        if !bytes_match3(&htoks[1], 99u8, 110u8, 102u8) {
            return Err(CnfErr(String::from_str("the header is not `p cnf V C`")));
        }
        let num_vars = match crate::text::parse_u32(&htoks[2]) {
            Some(v) => v,
            None => {
                return Err(CnfErr(String::from_str("failed to parse the variable count")));
            },
        };
        let declared = match parse_u64(&htoks[3]) {
            Some(c) => c,
            None => {
                return Err(CnfErr(String::from_str("failed to parse the clause count")));
            },
        };
        let ghost glines = split_lines_spec(bytes@);
        let ghost body = glines.drop_first();
        let mut clauses: Vec<Clause> = Vec::new();
        let n = lines.len();
        proof {
            assert(body.skip(0) == body);
            match parse_clause_lines(body) {
                Some(rest) => {
                    assert(clauses_view(clauses@) + rest =~= rest);
                },
                None => {},
            }
        }
        for i in 1..n
            invariant
                n == lines@.len(),
                seq2(lines@) == glines,
                glines == split_lines_spec(bytes@),
                body == glines.drop_first(),
                parse_clause_lines(body.skip(i - 1)) matches Some(rest) ==> parse_clause_lines(
                    body,
                ) == Some(clauses_view(clauses@) + rest),
                parse_clause_lines(body.skip(i - 1)) is None ==> parse_clause_lines(body) is None,
                clauses@.len() == i - 1,
        {
            proof {
                assert(lines@[i as int]@ == glines[i as int]);
                assert(body[i - 1] == glines[i as int]);
            }
            let lits = match parse_clause_line(&lines[i]) {
                Some(v) => v,
                None => {
                    proof {
                        let tail = body.skip(i - 1);
                        assert(tail[0] == body[i - 1]);
                        assert(parse_clause_line_spec(tail[0]) is None);
                    }
                    return Err(CnfErr(String::from_str("failed to parse a clause line")));
                },
            };
            let ghost prev = clauses_view(clauses@);
            clauses.push(Clause(lits));
            proof {
                let tail = body.skip(i - 1);
                let next = body.skip(i as int);
                assert(tail[0] == body[i - 1]);
                assert(tail.drop_first() == next);
                assert(parse_clause_line_spec(tail[0]) == Some(lits@));
                assert(clauses_view(clauses@) =~= prev.push(lits@));
                if parse_clause_lines(next) is Some {
                    let rest = parse_clause_lines(next).unwrap();
                    assert(parse_clause_lines(tail) == Some(seq![lits@] + rest));
                    assert(prev + (seq![lits@] + rest) =~= prev.push(lits@) + rest);
                }
            }
        }
        proof {
            assert(body.skip(n - 1) =~= Seq::<Seq<u8>>::empty());
            assert(body.skip(n - 1).len() == 0);
            assert(parse_clause_lines(body.skip(n - 1)) == Some(Seq::<Seq<i32>>::empty()));
            assert(clauses_view(clauses@) + Seq::<Seq<i32>>::empty() =~= clauses_view(clauses@));
        }
        if declared != clauses.len() as u64 {
            return Err(
                CnfErr(
                    String::from_str(
                        "the declared clause count does not match the number of clauses",
                    ),
                ),
            );
        }
        Ok(Cnf { num_vars, num_clauses: clauses.len(), clauses })
    }

    /// The CNF denoted by DIMACS text.
    pub fn from_text(s: &str) -> (r: Result<Cnf, CnfErr>)
        ensures
            match r {
                Ok(c) => all_ascii(s@) && parse_cnf_spec(char_bytes(s@)) == Some(
                    (c.num_vars, c.num_clauses as u64, clauses_view(c.clauses@)),
                ),
                Err(_) => !all_ascii(s@) || parse_cnf_spec(char_bytes(s@)) is None,
            },
    {
        match str_to_bytes(s) {
            Some(bytes) => Cnf::from_bytes(&bytes),
            None => Err(CnfErr(String::from_str("the text is not ASCII"))),
        }
    }
}

// ---------------------------------------------------------------------------
// Extension by a cube
// ---------------------------------------------------------------------------

/// The variable count after conjoining the literals: it grows to cover
/// every mentioned variable.
pub open spec fn grown_vars(nv: int, lits: Seq<i32>) -> int
    decreases lits.len(),
{
    if lits.len() == 0 {
        nv
    } else {
        let prior = grown_vars(nv, lits.drop_last());
        let v = crate::tree_gen::lit_var(lits.last() as int);
        if v > prior {
            v
        } else {
            prior
        }
    }
}

/// Each literal as a unit clause.
pub open spec fn unit_clauses(lits: Seq<i32>) -> Seq<Seq<i32>> {
    Seq::new(lits.len(), |i: int| seq![lits[i]])
}

impl Cnf {
    /// Conjoin a cube: append each literal as a unit clause, count the new
    /// clauses, and widen the variable count to cover the cube.
    pub fn extend_cube(&mut self, cube: &Cube)
        requires
            old(self).num_clauses + cube.0@.len() <= usize::MAX,
        ensures
            final(self).num_vars == grown_vars(old(self).num_vars as int, cube.0@),
            final(self).num_clauses == old(self).num_clauses + cube.0@.len(),
            clauses_view(final(self).clauses@) == clauses_view(old(self).clauses@) + unit_clauses(
                cube.0@,
            ),
    {
        let n = cube.0.len();
        let ghost lits = cube.0@;
        proof {
            assert(clauses_view(self.clauses@) =~~= clauses_view(old(self).clauses@)
                + unit_clauses(lits.subrange(0, 0)));
        }
        for i in 0..n
            invariant
                n == cube.0@.len(),
                lits == cube.0@,
                old(self).num_clauses + n <= usize::MAX,
                self.num_vars == grown_vars(old(self).num_vars as int, lits.subrange(0, i as int)),
                self.num_clauses == old(self).num_clauses + i,
                clauses_view(self.clauses@) == clauses_view(old(self).clauses@) + unit_clauses(
                    lits.subrange(0, i as int),
                ),
        {
            let l = cube.0[i];
            let abs: u32 = if l < 0 {
                ((-(l as i64)) as u32)
            } else {
                l as u32
            };
            if abs > self.num_vars {
                self.num_vars = abs;
            }
            let mut unit: Vec<i32> = Vec::new();
            unit.push(l);
            let ghost u = unit@;
            let ghost pre = self.clauses@;
            self.clauses.push(Clause(unit));
            self.num_clauses = self.num_clauses + 1;
            proof {
                assert(lits.subrange(0, i + 1).drop_last() == lits.subrange(0, i as int));
                assert(lits.subrange(0, i + 1).last() == lits[i as int]);
                assert(self.clauses@.len() == pre.len() + 1);
                let lhs = clauses_view(self.clauses@);
                let rhs = clauses_view(old(self).clauses@) + unit_clauses(
                    lits.subrange(0, i + 1),
                );
                let oldn = old(self).clauses@.len() as int;
                assert(clauses_view(pre) == clauses_view(old(self).clauses@) + unit_clauses(
                    lits.subrange(0, i as int),
                ));
                assert(clauses_view(pre).len() == pre.len());
                assert(clauses_view(old(self).clauses@).len() == oldn);
                assert(unit_clauses(lits.subrange(0, i as int)).len() == i);
                assert(lhs.len() == self.clauses@.len());
                assert(unit_clauses(lits.subrange(0, i + 1)).len() == i + 1);
                assert(lhs.len() == rhs.len());
                assert forall|x: int| 0 <= x < lhs.len() implies lhs[x] == rhs[x] by {
                    assert(lhs[x] == self.clauses@[x].0@);
                    if x < pre.len() {
                        assert(self.clauses@[x] == pre[x]);
                        assert(clauses_view(pre)[x] == pre[x].0@);
                        assert(clauses_view(pre)[x] == (clauses_view(old(self).clauses@)
                            + unit_clauses(lits.subrange(0, i as int)))[x]);
                        if x < oldn {
                            assert(rhs[x] == clauses_view(old(self).clauses@)[x]);
                        } else {
                            assert((clauses_view(old(self).clauses@) + unit_clauses(
                                lits.subrange(0, i as int),
                            ))[x] == unit_clauses(lits.subrange(0, i as int))[x - oldn]);
                            assert(unit_clauses(lits.subrange(0, i as int))[x - oldn] == seq![
                                lits.subrange(0, i as int)[x - oldn],
                            ]);
                            assert(rhs[x] == unit_clauses(lits.subrange(0, i + 1))[x - oldn]);
                            assert(unit_clauses(lits.subrange(0, i + 1))[x - oldn] == seq![
                                lits.subrange(0, i + 1)[x - oldn],
                            ]);
                            assert(lits.subrange(0, i as int)[x - oldn] == lits.subrange(
                                0,
                                i + 1,
                            )[x - oldn]);
                        }
                    } else {
                        assert(self.clauses@[x] == self.clauses@.last());
                        assert(lhs[x] == u);
                        assert(rhs[x] == unit_clauses(lits.subrange(0, i + 1))[i as int]);
                        assert(unit_clauses(lits.subrange(0, i + 1))[i as int] == seq![
                            lits.subrange(0, i + 1)[i as int],
                        ]);
                        assert(u == Seq::<i32>::empty().push(l));
                        assert(lits.subrange(0, i + 1)[i as int] == l);
                    }
                }
                assert(lhs =~= rhs);
            }
        }
        proof {
            assert(lits.subrange(0, n as int) == lits);
        }
    }

    /// The DIMACS text of this formula conjoined with a cube, leaving the
    /// formula itself untouched.
    pub fn extend_cube_str(&self, cube: &Cube) -> (r: String)
        requires
            self.num_clauses + cube.0@.len() <= usize::MAX,
        ensures
            r@ == ascii_view(
                cnf_bytes(
                    grown_vars(self.num_vars as int, cube.0@),
                    self.num_clauses + cube.0@.len(),
                    clauses_view(self.clauses@) + unit_clauses(cube.0@),
                ),
            ),
    {
        let mut copy = self.clone_cnf();
        copy.extend_cube(cube);
        copy.to_text()
    }

    /// An equal copy of this formula.
    pub fn clone_cnf(&self) -> (r: Cnf)
        ensures
            r.num_vars == self.num_vars,
            r.num_clauses == self.num_clauses,
            clauses_view(r.clauses@) == clauses_view(self.clauses@),
    {
        let mut clauses: Vec<Clause> = Vec::new();
        let n = self.clauses.len();
        for i in 0..n
            invariant
                n == self.clauses@.len(),
                clauses@.len() == i,
                forall|x: int|
                    0 <= x < i ==> (#[trigger] clauses@[x]).0@ == self.clauses@[x].0@,
        {
            let c = Clause(crate::tree_gen::copy_lits(&self.clauses[i].0));
            clauses.push(c);
        }
        proof {
            assert(clauses_view(clauses@) =~= clauses_view(self.clauses@));
        }
        Cnf { num_vars: self.num_vars, num_clauses: self.num_clauses, clauses }
    }
}

// ---------------------------------------------------------------------------
// Round trip
// ---------------------------------------------------------------------------

/// Parsing the token of one literal gives it back.
pub proof fn lemma_parse_i32_toks_map(lits: Seq<i32>)
    ensures
        parse_i32_toks(lits.map(|_i: int, l: i32| int_bytes(l as int))) == Some(lits),
    decreases lits.len(),
{
    let f = |_i: int, l: i32| int_bytes(l as int);
    let parts = lits.map(f);
    if lits.len() == 0 {
        assert(lits =~= Seq::<i32>::empty());
    } else {
        lemma_parse_int_bytes(lits[0] as int);
        assert(parts[0] == int_bytes(lits[0] as int));
        assert(parse_i32_spec(parts[0]) == Some(lits[0]));
        assert(parts.drop_first() =~= lits.drop_first().map(f));
        lemma_parse_i32_toks_map(lits.drop_first());
        assert(parse_i32_toks(parts) == Some(seq![lits[0]] + lits.drop_first()));
        assert(seq![lits[0]] + lits.drop_first() =~= lits);
    }
}

/// Parsing a serialized clause line gives the clause back.
pub proof fn lemma_parse_clause_line(lits: Seq<i32>)
    ensures
        parse_clause_line_spec(clause_line(lits)) == Some(lits),
{
    let f = |_i: int, l: i32| int_bytes(l as int);
    let parts = lits.map(f);
    let zero_tok: Seq<u8> = seq![ZERO_DIGIT];
    let all = parts.push(zero_tok);
    let line = clause_line(lits);
    if lits.len() == 0 {
        assert(parts.len() == 0);
        assert(join_with(parts, SP) =~= Seq::<u8>::empty());
        assert(line =~= seq![SP, ZERO_DIGIT]);
        assert(trim_spec(line) =~= zero_tok) by {
            assert(line.drop_first() =~= zero_tok);
            assert(is_space(line[0]));
            assert(crate::text::trim_front_spec(line) == crate::text::trim_front_spec(
                line.drop_first(),
            ));
            assert(!is_space(zero_tok[0]));
            assert(crate::text::trim_front_spec(zero_tok) == zero_tok);
            assert(!is_space(zero_tok.last()));
            assert(crate::text::trim_back_spec(zero_tok) == zero_tok);
        }
        let toks = split_on(trim_spec(line), SP);
        crate::text::lemma_split_at_first(zero_tok, SP, 1);
        assert(toks =~= seq![zero_tok]);
        assert(toks.last() == zero_tok);
        assert(parse_i32_spec(zero_tok) == Some(0i32)) by {
            lemma_dec_digits_props(0);
            assert(zero_tok == dec_digits(0));
            lemma_parse_int_bytes(0);
            assert(int_bytes(0) == dec_digits(0));
        }
        assert(toks.drop_last() =~= Seq::<Seq<u8>>::empty());
        assert(parse_i32_toks(toks.drop_last()) == Some(Seq::<i32>::empty()));
        assert(Seq::<i32>::empty() =~= lits);
    } else {
        lemma_join_push(parts, zero_tok, SP);
        assert(join_with(all, SP) == join_with(parts, SP) + seq![SP] + zero_tok);
        assert(line =~= join_with(all, SP));
        // neither end of the line is whitespace
        lemma_int_bytes_props(lits[0] as int);
        assert(parts[0] == int_bytes(lits[0] as int));
        lemma_join_with_len(all, SP);
        assert(all[0] == parts[0]);
        assert(line.len() >= 1);
        assert(line[0] == parts[0][0]) by {
            if parts.len() == 1 {
                assert(join_with(parts, SP) == parts[0]);
                assert(line[0] == (join_with(parts, SP) + seq![SP] + zero_tok)[0]);
            } else {
                assert(join_with(parts, SP) == parts[0] + seq![SP] + join_with(
                    parts.drop_first(),
                    SP,
                ));
            }
            crate::text::lemma_dec_digits_props((if lits[0] < 0 {
                -(lits[0] as int)
            } else {
                lits[0] as int
            }) as nat);
        }
        assert(!is_space(line[0]));
        assert(line.last() == ZERO_DIGIT);
        assert(!is_space(line.last()));
        lemma_trim_id(line);
        assert forall|k: int| 0 <= k < all.len() implies !(#[trigger] all[k]).contains(SP) by {
            if k < parts.len() {
                lemma_int_bytes_props(lits[k] as int);
                assert(all[k] == int_bytes(lits[k] as int));
                if all[k].contains(SP) {
                    let j = choose|j: int| 0 <= j < all[k].len() && all[k][j] == SP;
                    assert(false);
                }
            } else {
                assert(all[k] == zero_tok);
                if zero_tok.contains(SP) {
                    let j = choose|j: int| 0 <= j < zero_tok.len() && zero_tok[j] == SP;
                    assert(false);
                }
            }
        }
        lemma_split_join(all, SP);
        let toks = split_on(trim_spec(line), SP);
        assert(toks == all);
        assert(toks.last() == zero_tok);
        assert(parse_i32_spec(zero_tok) == Some(0i32)) by {
            lemma_dec_digits_props(0);
            assert(zero_tok == dec_digits(0));
            lemma_parse_int_bytes(0);
            assert(int_bytes(0) == dec_digits(0));
        }
        assert(toks.drop_last() =~= parts);
        lemma_parse_i32_toks_map(lits);
    }
}

proof fn lemma_parse_clause_lines_map(cs: Seq<Seq<i32>>)
    ensures
        parse_clause_lines(Seq::new(cs.len(), |i: int| clause_line(cs[i]))) == Some(cs),
    decreases cs.len(),
{
    let lines = Seq::new(cs.len(), |i: int| clause_line(cs[i]));
    if cs.len() == 0 {
        assert(cs =~= Seq::<Seq<i32>>::empty());
    } else {
        lemma_parse_clause_line(cs[0]);
        assert(lines[0] == clause_line(cs[0]));
        assert(lines.drop_first() =~= Seq::new(cs.drop_first().len(), |i: int| clause_line(
            cs.drop_first()[i],
        )));
        lemma_parse_clause_lines_map(cs.drop_first());
        assert(parse_clause_lines(lines) == Some(seq![cs[0]] + cs.drop_first()));
        assert(seq![cs[0]] + cs.drop_first() =~= cs);
    }
}

/// Round trip: parsing the text of a well-formed CNF (its declared clause
/// count matching its clauses) gives the formula back.
pub proof fn lemma_cnf_round_trip(nv: int, nc: int, cs: Seq<Seq<i32>>)
    requires
        0 <= nv <= u32::MAX,
        nc == cs.len(),
        nc <= u64::MAX,
    ensures
        parse_cnf_spec(cnf_bytes(nv, nc, cs)) == Some((nv as u32, nc as u64, cs)),
{
    let lines = cnf_lines(nv, nc, cs);
    assert forall|k: int| 0 <= k < lines.len() implies !(#[trigger] lines[k]).contains(NL) by {
        if k == 0 {
            lemma_header_line_ascii(nv, nc);
            assert(lines[0] == cnf_header_line(nv, nc));
            if lines[0].contains(NL) {
                let j = choose|j: int| 0 <= j < lines[0].len() && lines[0][j] == NL;
                assert(lines[0][j] != NL);
                assert(false);
            }
        } else {
            lemma_clause_line_ascii(cs[k - 1]);
            assert(lines[k] == clause_line(cs[k - 1]));
            if lines[k].contains(NL) {
                let j = choose|j: int| 0 <= j < lines[k].len() && lines[k][j] == NL;
                assert(false);
            }
        }
    }
    lemma_lines_round_trip(lines);
    assert(split_lines_spec(cnf_bytes(nv, nc, cs)) == lines);
    // the header line round trips
    lemma_cnf_header_round_trip(nv, nc);
    assert(lines[0] == cnf_header_line(nv, nc));
    // the clause lines round trip
    assert(lines.drop_first() =~= Seq::new(cs.len(), |i: int| clause_line(cs[i])));
    lemma_parse_clause_lines_map(cs);
}

proof fn lemma_cnf_header_round_trip(nv: int, nc: int)
    requires
        0 <= nv <= u32::MAX,
        0 <= nc,
    ensures
        parse_cnf_header_spec(cnf_header_line(nv, nc)) == Some((nv as u32, nc as u64)) || nc
            > u64::MAX,
{
    if nc <= u64::MAX {
        let line = cnf_header_line(nv, nc);
        let p_tok: Seq<u8> = seq![112u8];
        let cnf_tok: Seq<u8> = seq![99u8, 110u8, 102u8];
        let dv = dec_digits(nv as nat);
        let dc = dec_digits(nc as nat);
        let parts: Seq<Seq<u8>> = seq![p_tok, cnf_tok, dv, dc];
        lemma_dec_digits_props(nv as nat);
        lemma_dec_digits_props(nc as nat);
        assert(join_with(parts, SP) =~= line) by {
            assert(parts.drop_first() =~= seq![cnf_tok, dv, dc]);
            assert(seq![cnf_tok, dv, dc].drop_first() =~= seq![dv, dc]);
            assert(seq![dv, dc].drop_first() =~= seq![dc]);
            assert(join_with(seq![dc], SP) == dc);
            assert(join_with(seq![dv, dc], SP) == dv + seq![SP] + dc);
            assert(join_with(seq![cnf_tok, dv, dc], SP) == cnf_tok + seq![SP] + (dv + seq![SP]
                + dc));
            assert(join_with(parts, SP) == p_tok + seq![SP] + (cnf_tok + seq![SP] + (dv + seq![SP]
                + dc)));
        }
        assert(line[0] == 112u8);
        assert(!is_space(line[0]));
        assert(line.last() == dc.last()) by {
            assert(line.len() == 6 + dv.len() + 1 + dc.len());
        }
        assert(is_digit(dc.last()));
        assert(!is_space(line.last()));
        lemma_trim_id(line);
        assert forall|k: int| 0 <= k < parts.len() implies !(#[trigger] parts[k]).contains(SP) by {
            let t = parts[k];
            assert(forall|j: int| 0 <= j < t.len() ==> t[j] != SP) by {
                if k == 0 {
                } else if k == 1 {
                } else if k == 2 {
                    assert(forall|j: int| 0 <= j < dv.len() ==> is_digit(#[trigger] dv[j]));
                } else {
                    assert(forall|j: int| 0 <= j < dc.len() ==> is_digit(#[trigger] dc[j]));
                }
            }
            if t.contains(SP) {
                let j = choose|j: int| 0 <= j < t.len() && t[j] == SP;
                assert(false);
            }
        }
        lemma_split_join(parts, SP);
        let toks = split_on(trim_spec(line), SP);
        assert(toks == parts);
        assert(toks[0] == p_tok && toks[1] == cnf_tok);
        assert(parse_u32_spec(toks[2]) == Some(nv as u32)) by {
            assert(dec_val(dv) == nv as nat);
        }
        assert(parse_u64_spec(toks[3]) == Some(nc as u64)) by {
            assert(dec_val(dc) == nc as nat);
        }
    }
}


} // verus!
