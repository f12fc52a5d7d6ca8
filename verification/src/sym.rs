//! The Circom `.sym` symbol table.
//!
//! Each line is `label_id,wire_id,component_id,signal_name`; a wire id of
//! `-1` marks an internal signal and is skipped, as is any line that does
//! not have exactly four fields.  The table maps signal names (as byte
//! strings) to wire ids; `get_input_signals` keeps the signals under the
//! `main.` component, with the prefix stripped, optionally bounded by a
//! largest wire id.

use crate::errors::Error;
use vstd::prelude::*;

verus! {

/// A signal-name-to-wire mapping; later entries shadow earlier ones.
pub struct SymTable {
    pub entries: Vec<(Vec<u8>, u32)>,
}

/// The wire id the table gives a name: the last entry with that name wins.
pub open spec fn lookup_spec(entries: Seq<(Vec<u8>, u32)>, name: Seq<u8>) -> Option<u32>
    decreases entries.len(),
{
    if entries.len() == 0 {
        None
    } else if entries.last().0@ == name {
        Some(entries.last().1)
    } else {
        lookup_spec(entries.drop_last(), name)
    }
}

impl SymTable {
    /// The wire id of a signal name, if present; the last entry wins.
    pub fn lookup(&self, name: &Vec<u8>) -> (r: Option<u32>)
        ensures
            r == lookup_spec(self.entries@, name@),
    {
        let n = self.entries.len();
        let mut i: usize = n;
        proof {
            assert(self.entries@.subrange(0, n as int) =~= self.entries@);
        }
        while i > 0
            invariant
                i <= n,
                n == self.entries@.len(),
                lookup_spec(self.entries@, name@) == lookup_spec(
                    self.entries@.subrange(0, i as int),
                    name@,
                ),
        decreases i,
        {
            i = i - 1;
            let ghost cur = self.entries@.subrange(0, i as int + 1);
            proof {
                assert(cur.drop_last() =~= self.entries@.subrange(0, i as int));
                assert(cur.last() == self.entries@[i as int]);
            }
            if bytes_eq(&self.entries[i].0, name) {
                return Some(self.entries[i].1);
            }
        }
        proof {
            assert(self.entries@.subrange(0, 0) =~= Seq::<(Vec<u8>, u32)>::empty());
        }
        None
    }
}

/// Whether two byte strings are equal.
pub fn bytes_eq(a: &Vec<u8>, b: &Vec<u8>) -> (r: bool)
    ensures
        r == (a@ =~= b@),
{
    if a.len() != b.len() {
        return false;
    }
    let n = a.len();
    let mut i: usize = 0;
    while i < n
        invariant
            n == a@.len(),
            n == b@.len(),
            i <= n,
            forall|t: int| 0 <= t < i as int ==> a@[t] == b@[t],
        decreases n - i,
    {
        if a[i] != b[i] {
            return false;
        }
        i = i + 1;
    }
    true
}

/// Whether a byte is ASCII whitespace as the parser trims it.
pub open spec fn is_ws(b: u8) -> bool {
    b == 0x20 || b == 0x09 || b == 0x0d
}

/// The position of the first occurrence of `b` in `s`, or the length when
/// `b` is absent.
pub open spec fn first_byte(s: Seq<u8>, b: u8) -> int
    decreases s.len(),
{
    if s.len() == 0 {
        0
    } else if s[0] == b {
        0
    } else {
        1 + first_byte(s.subrange(1, s.len() as int), b)
    }
}

/// Everything before the first occurrence differs from `b`, and the
/// occurrence itself, when inside, is `b`.
pub proof fn lemma_first_byte(s: Seq<u8>, b: u8)
    ensures
        0 <= first_byte(s, b) <= s.len(),
        forall|j: int| 0 <= j < first_byte(s, b) ==> s[j] != b,
        first_byte(s, b) < s.len() ==> s[first_byte(s, b)] == b,
    decreases s.len(),
{
    if s.len() > 0 && s[0] != b {
        let rest = s.subrange(1, s.len() as int);
        lemma_first_byte(rest, b);
        assert forall|j: int| 0 <= j < first_byte(s, b) implies s[j] != b by {
            if j >= 1 {
                assert(rest[j - 1] != b);
            }
        }
    }
}

/// Finds the first occurrence of `b` in `data[start..end)`, or `end`.
fn find_byte(data: &Vec<u8>, start: usize, end: usize, b: u8) -> (r: usize)
    requires
        start <= end,
        end <= data@.len(),
    ensures
        r as int == start + first_byte(data@.subrange(start as int, end as int), b),
        start <= r <= end,
{
    let mut p = start;
    while p < end
        invariant
            start <= p <= end,
            end <= data@.len(),
            first_byte(data@.subrange(start as int, end as int), b) == (p - start) + first_byte(
                data@.subrange(p as int, end as int),
                b,
            ),
        decreases end - p,
    {
        if data[p] == b {
            proof {
                assert(data@.subrange(p as int, end as int)[0] == b);
            }
            return p;
        }
        proof {
            assert(data@.subrange(p as int, end as int)[0] != b);
            assert(data@.subrange(p as int, end as int).subrange(1, (end - p) as int)
                =~= data@.subrange(p as int + 1, end as int));
        }
        p = p + 1;
    }
    proof {
        assert(data@.subrange(p as int, end as int).len() == 0);
    }
    p
}

/// `s` without its leading whitespace.
pub open spec fn trim_front(s: Seq<u8>) -> Seq<u8>
    decreases s.len(),
{
    if s.len() > 0 && is_ws(s[0]) {
        trim_front(s.subrange(1, s.len() as int))
    } else {
        s
    }
}

/// `s` without its trailing whitespace.
pub open spec fn trim_back(s: Seq<u8>) -> Seq<u8>
    decreases s.len(),
{
    if s.len() > 0 && is_ws(s.last()) {
        trim_back(s.drop_last())
    } else {
        s
    }
}

/// `s` without surrounding whitespace.
pub open spec fn trim_spec(s: Seq<u8>) -> Seq<u8> {
    trim_back(trim_front(s))
}

/// The run between `start` and `end` with surrounding ASCII whitespace
/// removed.
fn trimmed(data: &Vec<u8>, start: usize, end: usize) -> (r: Vec<u8>)
    requires
        start <= end,
        end <= data@.len(),
    ensures
        r@ == trim_spec(data@.subrange(start as int, end as int)),
{
    let mut lo = start;
    while lo < end && (data[lo] == 0x20 || data[lo] == 0x09 || data[lo] == 0x0d)
        invariant
            start <= lo <= end,
            end <= data@.len(),
            trim_front(data@.subrange(start as int, end as int)) == trim_front(
                data@.subrange(lo as int, end as int),
            ),
        decreases end - lo,
    {
        proof {
            assert(data@.subrange(lo as int, end as int).subrange(1, (end - lo) as int)
                =~= data@.subrange(lo as int + 1, end as int));
        }
        lo = lo + 1;
    }
    proof {
        assert(trim_front(data@.subrange(start as int, end as int)) == data@.subrange(
            lo as int,
            end as int,
        ));
    }
    let mut hi = end;
    while hi > lo && (data[hi - 1] == 0x20 || data[hi - 1] == 0x09 || data[hi - 1] == 0x0d)
        invariant
            start <= lo <= hi <= end,
            end <= data@.len(),
            trim_back(data@.subrange(lo as int, end as int)) == trim_back(
                data@.subrange(lo as int, hi as int),
            ),
        decreases hi,
    {
        proof {
            assert(data@.subrange(lo as int, hi as int).drop_last() =~= data@.subrange(
                lo as int,
                hi as int - 1,
            ));
        }
        hi = hi - 1;
    }
    proof {
        assert(trim_back(data@.subrange(lo as int, hi as int)) == data@.subrange(
            lo as int,
            hi as int,
        ));
    }
    crate::bytesutil::take_bytes(data, lo, hi - lo)
}

/// Whether the bytes are a decimal integer, optionally signed, whose
/// magnitude fits a signed 64-bit word.
pub open spec fn int_field_ok(s: Seq<u8>) -> bool {
    if s.len() >= 1 && s[0] == 0x2d {
        let digits = s.subrange(1, s.len() as int);
        &&& digits.len() >= 1
        &&& (forall|i: int| 0 <= i < digits.len() ==> 0x30 <= #[trigger] digits[i] <= 0x39)
        &&& crate::inputs::dec_val(digits) <= 0x7fffffffffffffff
    } else {
        &&& s.len() >= 1
        &&& (forall|i: int| 0 <= i < s.len() ==> 0x30 <= #[trigger] s[i] <= 0x39)
        &&& crate::inputs::dec_val(s) <= 0x7fffffffffffffff
    }
}

/// The value of such an integer field.
pub open spec fn int_field_val(s: Seq<u8>) -> int {
    if s.len() >= 1 && s[0] == 0x2d {
        -(crate::inputs::dec_val(s.subrange(1, s.len() as int)) as int)
    } else {
        crate::inputs::dec_val(s) as int
    }
}

/// Parses an optionally-negative decimal integer; `None` exactly on values
/// that are not well-formed integers in range.
fn parse_i64_dec(s: &Vec<u8>) -> (r: Option<i64>)
    ensures
        r matches Some(v) ==> int_field_ok(s@) && v as int == int_field_val(s@),
        r is None ==> !int_field_ok(s@),
{
    let n = s.len();
    if n == 0 {
        return None;
    }
    let neg = s[0] == 0x2d;
    let off: usize = if neg {
        1
    } else {
        0
    };
    if off >= n {
        return None;
    }
    let ghost digits = s@.subrange(off as int, n as int);
    let mut acc: i64 = 0;
    let mut i: usize = off;
    while i < n
        invariant
            off <= i <= n,
            n == s@.len(),
            off < n,
            digits == s@.subrange(off as int, n as int),
            neg == (s@[0] == 0x2d),
            off == if neg {
                1int
            } else {
                0int
            },
            forall|t: int| off <= t < i as int ==> 0x30 <= #[trigger] s@[t] <= 0x39,
            0 <= acc,
            acc as nat == crate::inputs::dec_val(s@.subrange(off as int, i as int)),
        decreases n - i,
    {
        let b = s[i];
        if b < 0x30 || b > 0x39 {
            proof {
                assert(digits[i - off] == s@[i as int]);
                assert(!int_field_ok(s@));
            }
            return None;
        }
        let d = (b - 0x30) as i64;
        if acc > (0x7fffffffffffffffi64 - d) / 10 {
            proof {
                let cur = s@.subrange(off as int, i as int + 1);
                assert(cur.drop_last() =~= s@.subrange(off as int, i as int));
                assert(cur.last() == s@[i as int]);
                assert(crate::inputs::dec_val(cur) == (acc as nat) * 10 + (d as nat));
                assert((acc as int) * 10 + (d as int) > 0x7fffffffffffffff) by {
                    vstd::arithmetic::div_mod::lemma_fundamental_div_mod(
                        0x7fffffffffffffff - d as int,
                        10,
                    );
                }
                if int_field_ok(s@) {
                    if !neg {
                        assert(digits =~= s@);
                    }
                    assert(digits.subrange(0, i as int + 1 - off) =~= cur);
                    crate::inputs::lemma_dec_val_prefix_le(digits, i as int + 1 - off);
                }
                assert(!int_field_ok(s@));
            }
            return None;
        }
        let acc2 = acc * 10 + d;
        proof {
            let cur = s@.subrange(off as int, i as int + 1);
            assert(cur.drop_last() =~= s@.subrange(off as int, i as int));
            assert(cur.last() == s@[i as int]);
        }
        acc = acc2;
        i = i + 1;
    }
    proof {
        assert(s@.subrange(off as int, n as int) =~= digits);
        assert(crate::inputs::dec_val(digits) == acc as nat);
        assert(s@.len() >= 1);
        assert(crate::inputs::dec_val(digits) <= 0x7fffffffffffffff);
        if !neg {
            assert(digits =~= s@);
            assert(forall|t: int| 0 <= t < s@.len() ==> 0x30 <= #[trigger] s@[t] <= 0x39);
            assert(crate::inputs::dec_val(s@) <= 0x7fffffffffffffff);
        } else {
            assert(digits.len() >= 1);
            assert(forall|t: int| 0 <= t < digits.len() ==> 0x30 <= #[trigger] digits[t] <= 0x39);
        }
        assert(int_field_ok(s@));
        if neg {
            assert(int_field_val(s@) == -(acc as int));
        } else {
            assert(int_field_val(s@) == acc as int);
        }
    }
    if neg {
        Some(-acc)
    } else {
        Some(acc)
    }
}

/// One line's contribution to the table: skipped lines give nothing, a
/// four-field signal line with nonnegative wire id below the wire-count
/// width gives its trimmed name and wire, and a wire field that is not an
/// integer is an error.
pub open spec fn sym_line_entry(line: Seq<u8>) -> Result<Option<(Seq<u8>, u32)>, ()> {
    if trim_spec(line).len() == 0 {
        Ok(None)
    } else {
        let c0 = first_byte(line, 0x2c);
        if c0 == line.len() {
            Ok(None)
        } else {
            let c1 = c0 + 1 + first_byte(line.subrange(c0 + 1, line.len() as int), 0x2c);
            if c1 == line.len() {
                Ok(None)
            } else {
                let c2 = c1 + 1 + first_byte(line.subrange(c1 + 1, line.len() as int), 0x2c);
                if c2 == line.len() {
                    Ok(None)
                } else {
                    let c3 = c2 + 1 + first_byte(
                        line.subrange(c2 + 1, line.len() as int),
                        0x2c,
                    );
                    if c3 != line.len() {
                        Ok(None)
                    } else {
                        let wf = trim_spec(line.subrange(c0 + 1, c1));
                        if !int_field_ok(wf) {
                            Err(())
                        } else if int_field_val(wf) < 0 || int_field_val(wf) > 0xffffffff {
                            Ok(None)
                        } else {
                            Ok(
                                Some(
                                    (
                                        trim_spec(line.subrange(c2 + 1, line.len() as int)),
                                        int_field_val(wf) as u32,
                                    ),
                                ),
                            )
                        }
                    }
                }
            }
        }
    }
}

/// The table a `.sym` content parses to: each newline-separated line
/// contributes per `sym_line_entry`, in line order; any bad wire field
/// fails the whole parse.
pub open spec fn sym_entries(data: Seq<u8>) -> Result<Seq<(Seq<u8>, u32)>, ()>
    decreases data.len(),
    via sym_entries_decreases
{
    let k = first_byte(data, 0x0a);
    let line_r = sym_line_entry(data.subrange(0, k));
    if line_r is Err {
        Err(())
    } else {
        let rest_r = if k == data.len() {
            Ok(Seq::<(Seq<u8>, u32)>::empty())
        } else {
            sym_entries(data.subrange(k + 1, data.len() as int))
        };
        if rest_r is Err {
            Err(())
        } else {
            let head = match line_r {
                Ok(Some(e)) => seq![e],
                _ => Seq::empty(),
            };
            Ok(head + rest_r.unwrap())
        }
    }
}

#[via_fn]
proof fn sym_entries_decreases(data: Seq<u8>) {
    lemma_first_byte(data, 0x0a);
}

/// The views of the collected entries.
pub open spec fn table_views(entries: Seq<(Vec<u8>, u32)>) -> Seq<(Seq<u8>, u32)> {
    Seq::new(entries.len(), |k: int| (entries[k].0@, entries[k].1))
}

/// Parses the `.sym` content into a signal table: exactly the entries that
/// `sym_entries` gives the content, in order, and an error exactly when it
/// errs.
#[verifier::rlimit(100)]
#[verifier::spinoff_prover]
pub fn parse_sym_file(content: &Vec<u8>) -> (r: Result<SymTable, Error>)
    ensures
        r matches Ok(t) ==> sym_entries(content@) matches Ok(es) && table_views(t.entries@)
            =~= es,
        r is Err <==> sym_entries(content@) is Err,
        r matches Err(e) ==> e == Error::UnsupportedValue,
{
    let n = content.len();
    let mut entries: Vec<(Vec<u8>, u32)> = Vec::new();
    let mut line_start: usize = 0;
    proof {
        assert(content@.subrange(0, n as int) =~= content@);
    }
    loop
        invariant
            n == content@.len(),
            line_start <= n,
            (sym_entries(content@) is Err <==> sym_entries(
                content@.subrange(line_start as int, n as int),
            ) is Err),
            sym_entries(content@) matches Ok(es) ==> (sym_entries(
                content@.subrange(line_start as int, n as int),
            ) matches Ok(rest) && es =~= table_views(entries@) + rest),
        ensures
            line_start == n,
        decreases n - line_start,
    {
        let ghost suffix = content@.subrange(line_start as int, n as int);
        let ghost pre_entries = entries@;
        let le = find_byte(content, line_start, n, 0x0a);
        let ghost line = content@.subrange(line_start as int, le as int);
        proof {
            assert(first_byte(suffix, 0x0a) == le - line_start);
            assert(suffix.subrange(0, le - line_start) =~= line);
        }
        // Decide the line exactly as `sym_line_entry` does.
        let tr = trimmed(content, line_start, le);
        let mut keep: Option<(Vec<u8>, u32)> = None;
        let mut bad = false;
        if tr.len() > 0 {
            let c0 = find_byte(content, line_start, le, 0x2c);
            proof {
                assert(first_byte(line, 0x2c) == c0 - line_start);
            }
            if c0 < le {
                let c1 = find_byte(content, c0 + 1, le, 0x2c);
                proof {
                    assert(line.subrange(c0 - line_start + 1, line.len() as int) =~= content@
                        .subrange(c0 as int + 1, le as int));
                }
                if c1 < le {
                    let c2 = find_byte(content, c1 + 1, le, 0x2c);
                    proof {
                        assert(line.subrange(c1 - line_start + 1, line.len() as int) =~= content@
                            .subrange(c1 as int + 1, le as int));
                    }
                    if c2 < le {
                        let c3 = find_byte(content, c2 + 1, le, 0x2c);
                        proof {
                            assert(line.subrange(c2 - line_start + 1, line.len() as int)
                                =~= content@.subrange(c2 as int + 1, le as int));
                        }
                        if c3 == le {
                            let wire_field = trimmed(content, c0 + 1, c1);
                            proof {
                                assert(line.subrange(c0 - line_start + 1, c1 - line_start)
                                    =~= content@.subrange(c0 as int + 1, c1 as int));
                            }
                            match parse_i64_dec(&wire_field) {
                                None => {
                                    bad = true;
                                },
                                Some(wire) => {
                                    if wire >= 0 && wire <= 0xffffffffi64 {
                                        let name = trimmed(content, c2 + 1, le);
                                        proof {
                                            assert(line.subrange(
                                                c2 - line_start + 1,
                                                line.len() as int,
                                            ) =~= content@.subrange(c2 as int + 1, le as int));
                                        }
                                        keep = Some((name, wire as u32));
                                    }
                                },
                            }
                        }
                    }
                }
            }
        }
        if bad {
            proof {
                assert(sym_line_entry(line) is Err);
                assert(sym_entries(suffix) is Err);
            }
            return Err(Error::UnsupportedValue);
        }
        match keep {
            Some(entry) => {
                proof {
                    assert(sym_line_entry(line) == Ok::<Option<(Seq<u8>, u32)>, ()>(
                        Some((entry.0@, entry.1)),
                    ));
                }
                entries.push(entry);
            },
            None => {
                proof {
                    assert(sym_line_entry(line) == Ok::<Option<(Seq<u8>, u32)>, ()>(None));
                }
            },
        }
        proof {
            if le < n {
                assert(suffix.subrange(le - line_start + 1, suffix.len() as int) =~= content@
                    .subrange(le as int + 1, n as int));
            }
            assert(table_views(entries@) =~= table_views(pre_entries) + (match sym_line_entry(
                line,
            ) {
                Ok(Some(e)) => seq![e],
                _ => Seq::<(Seq<u8>, u32)>::empty(),
            }));
            if sym_entries(content@) is Ok {
                let es = sym_entries(content@).unwrap();
                assert(sym_entries(suffix) is Ok);
                if le < n {
                    assert(es =~= table_views(entries@) + sym_entries(
                        content@.subrange(le as int + 1, n as int),
                    ).unwrap());
                } else {
                    assert(es =~= table_views(entries@));
                }
            }
        }
        if le == n {
            line_start = n;
            proof {
                let empty_suffix = content@.subrange(n as int, n as int);
                assert(empty_suffix.len() == 0);
                assert(first_byte(empty_suffix, 0x0a) == 0);
                assert(empty_suffix.subrange(0, 0) =~= Seq::<u8>::empty());
                assert(trim_front(Seq::<u8>::empty()) =~= Seq::<u8>::empty());
                assert(trim_back(Seq::<u8>::empty()) =~= Seq::<u8>::empty());
                assert(sym_line_entry(Seq::<u8>::empty()) == Ok::<
                    Option<(Seq<u8>, u32)>,
                    (),
                >(None));
                assert(sym_entries(empty_suffix) == Ok::<Seq<(Seq<u8>, u32)>, ()>(
                    Seq::empty(),
                ));
                if sym_entries(content@) is Ok {
                    assert(sym_entries(content@).unwrap() =~= table_views(entries@)
                        + Seq::<(Seq<u8>, u32)>::empty());
                }
            }
            break;
        }
        line_start = le + 1;
    }
    proof {
        let empty_suffix = content@.subrange(n as int, n as int);
        assert(empty_suffix.len() == 0);
        assert(first_byte(empty_suffix, 0x0a) == 0);
        assert(empty_suffix.subrange(0, 0) =~= Seq::<u8>::empty());
        assert(trim_front(Seq::<u8>::empty()) =~= Seq::<u8>::empty());
        assert(trim_back(Seq::<u8>::empty()) =~= Seq::<u8>::empty());
        assert(sym_line_entry(Seq::<u8>::empty()) == Ok::<Option<(Seq<u8>, u32)>, ()>(None));
        assert(sym_entries(empty_suffix) == Ok::<Seq<(Seq<u8>, u32)>, ()>(Seq::empty()));
        if sym_entries(content@) is Ok {
            assert(sym_entries(content@).unwrap() =~= table_views(entries@)
                + Seq::<(Seq<u8>, u32)>::empty());
            assert(sym_entries(content@).unwrap() =~= table_views(entries@));
        }
    }
    Ok(SymTable { entries })
}

/// Whether an entry is kept as an input signal: its wire id within the
/// bound when one is given, and its name under the `main.` component.
pub open spec fn signal_kept(e: (Vec<u8>, u32), max: Option<u32>) -> bool {
    &&& (max matches Some(m) ==> e.1 <= m)
    &&& e.0@.len() >= 5
    &&& e.0@.subrange(0, 5) == seq![0x6du8, 0x61u8, 0x69u8, 0x6eu8, 0x2eu8]
}

/// The kept entries, in order, with the `main.` prefix stripped.
pub open spec fn input_signals_spec(entries: Seq<(Vec<u8>, u32)>, max: Option<u32>) -> Seq<
    (Seq<u8>, u32),
>
    decreases entries.len(),
{
    if entries.len() == 0 {
        Seq::empty()
    } else {
        let pre = input_signals_spec(entries.drop_last(), max);
        let e = entries.last();
        if signal_kept(e, max) {
            pre.push((e.0@.subrange(5, e.0@.len() as int), e.1))
        } else {
            pre
        }
    }
}

/// Keeps the input signals: entries whose name starts with `main.`, with
/// the prefix stripped, and whose wire id does not exceed the bound when
/// one is given.
pub fn get_input_signals(wire_map: &SymTable, max_wire_id: Option<u32>) -> (r: SymTable)
    ensures
        ({
            let spec = input_signals_spec(wire_map.entries@, max_wire_id);
            &&& r.entries@.len() == spec.len()
            &&& forall|t: int|
                0 <= t < spec.len() ==> (#[trigger] r.entries@[t]).0@ == spec[t].0
                    && r.entries@[t].1 == spec[t].1
        }),
{
    let n = wire_map.entries.len();
    let mut out: Vec<(Vec<u8>, u32)> = Vec::new();
    let mut i: usize = 0;
    while i < n
        invariant
            i <= n,
            n == wire_map.entries@.len(),
            out@.len() == input_signals_spec(
                wire_map.entries@.subrange(0, i as int),
                max_wire_id,
            ).len(),
            forall|t: int|
                0 <= t < out@.len() ==> (#[trigger] out@[t]).0@ == input_signals_spec(
                    wire_map.entries@.subrange(0, i as int),
                    max_wire_id,
                )[t].0 && out@[t].1 == input_signals_spec(
                    wire_map.entries@.subrange(0, i as int),
                    max_wire_id,
                )[t].1,
        decreases n - i,
    {
        let ghost pre = wire_map.entries@.subrange(0, i as int);
        let (name, wire) = &wire_map.entries[i];
        let keep = match max_wire_id {
            Some(max) => *wire <= max,
            None => true,
        };
        let is_main = name.len() >= 5 && name[0] == 0x6d && name[1] == 0x61 && name[2] == 0x69
            && name[3] == 0x6e && name[4] == 0x2e;
        proof {
            let cur = wire_map.entries@.subrange(0, i as int + 1);
            assert(cur.drop_last() =~= pre);
            assert(cur.last() == wire_map.entries@[i as int]);
            if is_main {
                assert(wire_map.entries@[i as int].0@.subrange(0, 5) =~= seq![
                    0x6du8, 0x61u8, 0x69u8, 0x6eu8, 0x2eu8,
                ]);
            } else if name.len() >= 5 {
                assert(wire_map.entries@[i as int].0@.subrange(0, 5) !~= seq![
                    0x6du8, 0x61u8, 0x69u8, 0x6eu8, 0x2eu8,
                ]) by {
                    let prefix = wire_map.entries@[i as int].0@.subrange(0, 5);
                    if prefix =~= seq![0x6du8, 0x61u8, 0x69u8, 0x6eu8, 0x2eu8] {
                        assert(prefix[0] == 0x6d && prefix[1] == 0x61 && prefix[2] == 0x69
                            && prefix[3] == 0x6e && prefix[4] == 0x2e);
                    }
                }
            }
        }
        if keep && is_main {
            let stripped = crate::bytesutil::take_bytes(name, 5, name.len() - 5);
            out.push((stripped, *wire));
        }
        i = i + 1;
    }
    proof {
        assert(wire_map.entries@.subrange(0, n as int) =~= wire_map.entries@);
    }
    SymTable { entries: out }
}

} // verus!
