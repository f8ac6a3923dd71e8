//! Reading a solver's log: locate the metrics block after the last
//! `SPLITS DATA` marker, parse it as a JSON object of numbers, and pick
//! out the evaluation metric and the observed runtime.

use crate::num::{parse_ratio_spec, ratio_wf, Ratio};
use crate::strings::{all_ascii, ascii_string, ascii_view, char_bytes, str_to_bytes};
use crate::text::{trim_bytes, trim_spec};
use vstd::prelude::*;

verus! {

/// `SPLITS DATA`, the marker that introduces the metrics block.
pub open spec fn splits_marker() -> Seq<u8> {
    seq![83u8, 80u8, 76u8, 73u8, 84u8, 83u8, 32u8, 68u8, 65u8, 84u8, 65u8]
}

/// Whether the pattern `p` occurs in `s` at position `i`.
pub open spec fn is_match_at(s: Seq<u8>, p: Seq<u8>, i: int) -> bool {
    0 <= i <= s.len() - p.len() && s.subrange(i, i + p.len()) == p
}

/// The last position where `p` occurs in `s`, or `-1` when it never does.
pub open spec fn last_match(s: Seq<u8>, p: Seq<u8>) -> int
    decreases s.len(),
{
    if s.len() == 0 || s.len() < p.len() {
        -1
    } else if s.subrange(s.len() - p.len(), s.len() as int) == p {
        s.len() - p.len()
    } else {
        last_match(s.drop_last(), p)
    }
}

/// Everything after the last occurrence of the marker; the whole text
/// when the marker never occurs.
pub open spec fn after_last_marker(s: Seq<u8>) -> Seq<u8> {
    let m = last_match(s, splits_marker());
    if m >= 0 {
        s.skip(m + splits_marker().len())
    } else {
        s
    }
}

/// A found match position is a valid occurrence position.
proof fn lemma_last_match_range(s: Seq<u8>, p: Seq<u8>)
    requires
        p.len() >= 1,
    ensures
        last_match(s, p) == -1 || (0 <= last_match(s, p) <= s.len() - p.len()),
    decreases s.len(),
{
    if s.len() == 0 || s.len() < p.len() {
    } else if s.subrange(s.len() - p.len(), s.len() as int) == p {
    } else {
        lemma_last_match_range(s.drop_last(), p);
    }
}

/// `last_match` is determined by a witness position and the absence of
/// any later match.
proof fn lemma_last_match(s: Seq<u8>, p: Seq<u8>, i: int)
    requires
        p.len() >= 1,
        i == -1 || (0 <= i <= s.len() - p.len() && is_match_at(s, p, i)),
        forall|j: int| i < j <= s.len() - p.len() ==> !is_match_at(s, p, j),
    ensures
        last_match(s, p) == i,
    decreases s.len(),
{
    if s.len() == 0 || s.len() < p.len() {
    } else {
        let t = s.len() - p.len();
        if i == t {
            assert(s.subrange(t, s.len() as int) == p);
        } else {
            assert(!is_match_at(s, p, t));
            assert(s.subrange(t, s.len() as int) != p);
            let d = s.drop_last();
            assert forall|j: int| i < j <= d.len() - p.len() implies !is_match_at(d, p, j) by {
                assert(d.subrange(j, j + p.len()) == s.subrange(j, j + p.len()));
                assert(!is_match_at(s, p, j));
            }
            if i >= 0 {
                assert(d.subrange(i, i + p.len()) == s.subrange(i, i + p.len()));
                assert(is_match_at(d, p, i));
            }
            lemma_last_match(d, p, i);
        }
    }
}

/// The bytes after the last `SPLITS DATA` marker.
pub fn suffix_after_marker(s: &Vec<u8>) -> (r: Vec<u8>)
    ensures
        r@ == after_last_marker(s@),
{
    let n = s.len();
    let plen: usize = 11;
    let marker: [u8; 11] = [83u8, 80u8, 76u8, 73u8, 84u8, 83u8, 32u8, 68u8, 65u8, 84u8, 65u8];
    proof {
        assert(splits_marker().len() == 11);
    }
    if n < plen {
        proof {
            lemma_last_match(s@, splits_marker(), -1);
            assert(s@.skip(0) == s@);
        }
        return crate::text::copy_range(s, 0, n);
    }
    let mut i = n - plen + 1;
    while i > 0
        invariant
            n == s@.len(),
            plen == 11,
            splits_marker().len() == 11,
            i <= n - plen + 1,
            forall|j: int| i <= j <= n - plen ==> !is_match_at(s@, splits_marker(), j),
        decreases i,
    {
        i -= 1;
        let mut hit = true;
        let mut k: usize = 0;
        while k < plen
            invariant
                n == s@.len(),
                plen == 11,
                splits_marker().len() == 11,
                i <= n - plen,
                k <= plen,
                hit == (forall|x: int| 0 <= x < k ==> s@[i + x] == #[trigger] splits_marker()[x]),
            decreases plen - k,
        {
            let b = match k {
                0 => 83u8,
                1 => 80u8,
                2 => 76u8,
                3 => 73u8,
                4 => 84u8,
                5 => 83u8,
                6 => 32u8,
                7 => 68u8,
                8 => 65u8,
                9 => 84u8,
                _ => 65u8,
            };
            proof {
                assert(splits_marker()[k as int] == b);
            }
            let good = s[i + k] == b;
            proof {
                if hit && good {
                    assert(forall|x: int|
                        0 <= x < k + 1 ==> s@[i + x] == #[trigger] splits_marker()[x]);
                } else {
                    assert(!(hit && good) ==> !(forall|x: int|
                        0 <= x < k + 1 ==> s@[i + x] == #[trigger] splits_marker()[x])) by {
                        if !good {
                            assert(s@[i + k] != splits_marker()[k as int]);
                        }
                    }
                }
            }
            hit = hit && good;
            k += 1;
        }
        if hit {
            proof {
                assert(s@.subrange(i as int, i + 11) =~= splits_marker());
                assert(is_match_at(s@, splits_marker(), i as int));
                lemma_last_match(s@, splits_marker(), i as int);
            }
            return crate::text::copy_range(s, i + plen, n);
        }
        proof {
            assert(!is_match_at(s@, splits_marker(), i as int)) by {
                if is_match_at(s@, splits_marker(), i as int) {
                    let bad = choose|x: int|
                        0 <= x < 11 && s@[i + x] != #[trigger] splits_marker()[x];
                    assert(s@.subrange(i as int, i + 11)[bad] == s@[i + bad]);
                }
            }
        }
    }
    proof {
        lemma_last_match(s@, splits_marker(), -1);
        assert(s@.skip(0) == s@);
    }
    crate::text::copy_range(s, 0, n)
}

// ---------------------------------------------------------------------------
// The JSON metrics block
// ---------------------------------------------------------------------------

/// What `serde_json` reads from the metrics block: the key/value entries
/// of the text parsed as a JSON object of numbers, each value rendered
/// back as decimal text, in ascending key order; `None` when the text is
/// not such an object. The result depends on the text alone.
pub uninterp spec fn json_number_entries(s: Seq<char>) -> Option<Seq<(Seq<char>, Seq<char>)>>;

/// Relies on `serde_json::from_str` to parse a JSON object with numeric
/// values into a `BTreeMap<String, serde_json::Number>` (so the entry
/// order is the key order, not a hash order), and on
/// `serde_json::Number`'s `Display` to render each value as the decimal
/// text it holds.
#[verifier::external_body]
fn parse_json_numbers(s: &str) -> (r: Option<Vec<(String, String)>>)
    ensures
        match (r, json_number_entries(s@)) {
            (Some(v), Some(es)) => v@.len() == es.len() && (forall|i: int|
                0 <= i < es.len() ==> (#[trigger] v@[i]).0@ == es[i].0 && v@[i].1@ == es[i].1),
            (None, None) => true,
            _ => false,
        },
{
    match serde_json::from_str::<std::collections::BTreeMap<String, serde_json::Number>>(s) {
        Ok(m) => Some(m.into_iter().map(|(k, n)| (k, n.to_string())).collect()),
        Err(_) => None,
    }
}

/// The entries with every value read as an exact decimal; `None` when
/// any value fails to (a huge exponent, or a numerator beyond `i64`).
pub open spec fn entries_values(es: Seq<(Seq<char>, Seq<char>)>) -> Option<
    Seq<(Seq<char>, Ratio)>,
>
    decreases es.len(),
{
    if es.len() == 0 {
        Some(Seq::<(Seq<char>, Ratio)>::empty())
    } else {
        match (
            if all_ascii(es[0].1) {
                parse_ratio_spec(char_bytes(es[0].1))
            } else {
                None
            },
            entries_values(es.drop_first()),
        ) {
            (Some(q), Some(rest)) => Some(seq![(es[0].0, q)] + rest),
            _ => None,
        }
    }
}

/// The value at the first entry whose key is `key`.
pub open spec fn find_key(es: Seq<(Seq<char>, Ratio)>, key: Seq<char>) -> Option<Ratio>
    decreases es.len(),
{
    if es.len() == 0 {
        None
    } else if es[0].0 == key {
        Some(es[0].1)
    } else {
        find_key(es.drop_first(), key)
    }
}

/// The view of parsed entries.
pub open spec fn entries_view(es: Seq<(String, Ratio)>) -> Seq<(Seq<char>, Ratio)> {
    Seq::new(es.len(), |i: int| (es[i].0@, es[i].1))
}

/// What a solver log yields: the metric named by the configuration, the
/// observed runtime under the `time` key, and the full metrics map.
#[derive(Debug, Clone, PartialEq, Eq)]
pub struct LogData {
    pub metric: Ratio,
    pub time: Ratio,
    pub entries: Vec<(String, Ratio)>,
}

/// Why a solver log yields nothing. A missing evaluation metric or a
/// missing `time` breaks the solver contract and the caller treats it as
/// fatal; the other cases are log-parse errors.
#[derive(Debug, Clone, PartialEq, Eq, Structural)]
pub enum LogErr {
    NotAscii,
    NotJson,
    BadNumber,
    MissingMetric,
    MissingTime,
}

/// The well-formedness of everything a log yields.
pub open spec fn log_data_wf(d: LogData) -> bool {
    &&& ratio_wf(d.metric)
    &&& ratio_wf(d.time)
    &&& forall|i: int| 0 <= i < d.entries@.len() ==> ratio_wf((#[trigger] d.entries@[i]).1)
}

/// Read a solver log: the text after the last `SPLITS DATA` marker,
/// trimmed, is a JSON object of numbers; the evaluation metric and the
/// `time` value must both be present.
pub fn parse_log_text(text: &str, metric_key: &String) -> (r: Result<LogData, LogErr>)
    ensures
        ({
            let suffix = trim_spec(after_last_marker(char_bytes(text@)));
            match r {
                Ok(d) => {
                    &&& all_ascii(text@)
                    &&& log_data_wf(d)
                    &&& match json_number_entries(ascii_view(suffix)) {
                        Some(raw) => {
                            &&& entries_values(raw) == Some(entries_view(d.entries@))
                            &&& find_key(entries_view(d.entries@), metric_key@) == Some(d.metric)
                            &&& find_key(entries_view(d.entries@), "time"@) == Some(d.time)
                        },
                        None => false,
                    }
                },
                Err(LogErr::NotAscii) => !all_ascii(text@),
                Err(LogErr::NotJson) => all_ascii(text@) && json_number_entries(ascii_view(suffix))
                    is None,
                Err(LogErr::BadNumber) => all_ascii(text@) && (match json_number_entries(
                    ascii_view(suffix),
                ) {
                    Some(raw) => entries_values(raw) is None,
                    None => false,
                }),
                Err(LogErr::MissingMetric) => all_ascii(text@) && (match json_number_entries(
                    ascii_view(suffix),
                ) {
                    Some(raw) => entries_values(raw) matches Some(es) && find_key(es, metric_key@)
                        is None,
                    None => false,
                }),
                Err(LogErr::MissingTime) => all_ascii(text@) && (match json_number_entries(
                    ascii_view(suffix),
                ) {
                    Some(raw) => entries_values(raw) matches Some(es) && find_key(es, metric_key@)
                        is Some && find_key(es, "time"@) is None,
                    None => false,
                }),
            }
        }),
{
    let bytes = match str_to_bytes(text) {
        Some(b) => b,
        None => {
            return Err(LogErr::NotAscii);
        },
    };
    let suffix = suffix_after_marker(&bytes);
    let trimmed = trim_bytes(&suffix);
    proof {
        assert(forall|i: int| 0 <= i < bytes@.len() ==> (#[trigger] bytes@[i]) < 128) by {
            assert forall|i: int| 0 <= i < bytes@.len() implies (#[trigger] bytes@[i]) < 128 by {
                assert(bytes@[i] == text@[i] as u8);
                assert('\0' <= text@[i] <= '\u{7f}');
            }
        }
        assert forall|i: int| 0 <= i < suffix@.len() implies (#[trigger] suffix@[i]) < 128 by {
            let m = last_match(bytes@, splits_marker());
            assert(splits_marker().len() == 11);
            if m >= 0 {
                assert(0 <= m <= bytes@.len() - 11) by {
                    lemma_last_match_range(bytes@, splits_marker());
                }
                assert(suffix@ == bytes@.skip(m + 11));
                assert(suffix@.len() == bytes@.len() - (m + 11));
                assert(suffix@[i] == bytes@[i + (m + 11)]);
            } else {
                assert(suffix@[i] == bytes@[i]);
            }
        }
        crate::text::lemma_trim_ascii(suffix@);
    }
    let json_text = ascii_string(trimmed);
    let raw_entries = match parse_json_numbers(json_text.as_str()) {
        Some(es) => es,
        None => {
            return Err(LogErr::NotJson);
        },
    };
    let ghost raw = json_number_entries(ascii_view(trim_spec(after_last_marker(char_bytes(
        text@,
    ))))).unwrap();
    let mut entries: Vec<(String, Ratio)> = Vec::new();
    let n = raw_entries.len();
    proof {
        assert(raw.skip(0) == raw);
        match entries_values(raw) {
            Some(rest) => {
                assert(entries_view(entries@) + rest =~= rest);
            },
            None => {},
        }
    }
    for i in 0..n
        invariant
            all_ascii(text@),
            json_number_entries(ascii_view(trim_spec(after_last_marker(char_bytes(text@)))))
                == Some(raw),
            n == raw_entries@.len(),
            n == raw.len(),
            forall|x: int|
                0 <= x < raw.len() ==> (#[trigger] raw_entries@[x]).0@ == raw[x].0
                    && raw_entries@[x].1@ == raw[x].1,
            entries@.len() == i,
            forall|x: int| 0 <= x < i ==> ratio_wf((#[trigger] entries@[x]).1),
            entries_values(raw.skip(i as int)) matches Some(rest) ==> entries_values(raw) == Some(
                entries_view(entries@) + rest,
            ),
            entries_values(raw.skip(i as int)) is None ==> entries_values(raw) is None,
    {
        let q = match Ratio::from_text(raw_entries[i].1.as_str()) {
            Some(q) => q,
            None => {
                proof {
                    let tail = raw.skip(i as int);
                    assert(tail[0] == raw[i as int]);
                    assert(raw_entries@[i as int].1@ == tail[0].1);
                    assert(entries_values(tail) is None);
                }
                return Err(LogErr::BadNumber);
            },
        };
        let key = raw_entries[i].0.clone();
        let ghost prev = entries_view(entries@);
        entries.push((key, q));
        proof {
            let tail = raw.skip(i as int);
            let next = raw.skip(i + 1);
            assert(tail[0] == raw[i as int]);
            assert(tail.drop_first() == next);
            assert(raw_entries@[i as int].1@ == tail[0].1);
            assert(all_ascii(tail[0].1) && parse_ratio_spec(char_bytes(tail[0].1)) == Some(q));
            assert(entries_view(entries@) =~= prev.push((raw[i as int].0, q)));
            if entries_values(next) is Some {
                let rest = entries_values(next).unwrap();
                assert(entries_values(tail) == Some(seq![(tail[0].0, q)] + rest));
                assert(prev + (seq![(tail[0].0, q)] + rest) =~= prev.push((raw[i as int].0, q))
                    + rest);
            }
        }
    }
    proof {
        assert(raw.skip(n as int) =~= Seq::<(Seq<char>, Seq<char>)>::empty());
        assert(raw.skip(n as int).len() == 0);
        assert(entries_values(raw.skip(n as int)) == Some(Seq::<(Seq<char>, Ratio)>::empty()));
        assert(entries_view(entries@) + Seq::<(Seq<char>, Ratio)>::empty() =~= entries_view(
            entries@,
        ));
    }
    let metric = match lookup(&entries, metric_key) {
        Some(q) => q,
        None => {
            return Err(LogErr::MissingMetric);
        },
    };
    let time_key = String::from_str("time");
    let time = match lookup(&entries, &time_key) {
        Some(q) => q,
        None => {
            return Err(LogErr::MissingTime);
        },
    };
    Ok(LogData { metric, time, entries })
}

/// The value at the first entry whose key equals `key`.
fn lookup(entries: &Vec<(String, Ratio)>, key: &String) -> (r: Option<Ratio>)
    ensures
        r == find_key(entries_view(entries@), key@),
        r matches Some(q) ==> exists|i: int|
            0 <= i < entries@.len() && (#[trigger] entries@[i]).1 == q,
{
    let ghost es = entries_view(entries@);
    let n = entries.len();
    proof {
        assert(es.skip(0) == es);
    }
    for i in 0..n
        invariant
            n == entries@.len(),
            es == entries_view(entries@),
            find_key(es.skip(i as int), key@) == find_key(es, key@),
    {
        proof {
            assert(es.skip(i as int)[0] == es[i as int]);
            assert(es.skip(i as int).drop_first() == es.skip(i + 1));
        }
        if entries[i].0.eq(key) {
            proof {
                assert(es[i as int].0 == key@);
                assert(entries@[i as int].1 == entries@[i as int].1);
            }
            return Some(entries[i].1);
        }
        proof {
            assert(es[i as int].0 != key@);
        }
    }
    proof {
        assert(es.skip(n as int) =~= Seq::<(Seq<char>, Ratio)>::empty());
        assert(es.skip(n as int).len() == 0);
    }
    None
}

} // verus!
