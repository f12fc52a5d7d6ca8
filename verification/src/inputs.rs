//! The input mapper.
//!
//! A named input map (names to nested values) becomes the ordered instance
//! vector.  Recognised shapes: unsigned integers, decimal strings, booleans
//! (one or zero), null (zero) and arrays (recursed); objects are skipped
//! and negative integers are refused with `UnsupportedValue`.  Without a
//! symbol table the entries are taken in ascending byte order of their
//! names — deterministic, but correct only for consumers that accept
//! lexicographic ordering.

use crate::errors::Error;
use crate::field::{fe_from_u64, Fe};
use vstd::prelude::*;

verus! {

/// One input value, already freed of any serialisation framing.
pub enum InputValue {
    /// An unsigned integer literal.
    Uint(u64),
    /// A negative integer literal; always refused.
    Negative,
    /// A decimal string.
    Text(Vec<u8>),
    /// A boolean, mapped to one or zero.
    Flag(bool),
    /// Null, mapped to zero.
    Null,
    /// A nested array, flattened depth first.
    List(Vec<InputValue>),
    /// A nested object; skipped.
    Nested,
}

/// Whether the bytes are a well-formed decimal `u64`: at least one digit,
/// digits only, value within range.
pub open spec fn is_dec_u64(s: Seq<u8>) -> bool {
    &&& s.len() >= 1
    &&& (forall|i: int| 0 <= i < s.len() ==> 0x30 <= #[trigger] s[i] <= 0x39)
    &&& dec_val(s) <= u64::MAX
}

/// The value of a decimal digit string.
pub open spec fn dec_val(s: Seq<u8>) -> nat
    decreases s.len(),
{
    if s.len() == 0 {
        0
    } else {
        (dec_val(s.drop_last()) * 10 + (s.last() - 0x30)) as nat
    }
}

/// Parses a decimal `u64`; `None` exactly on strings that are not
/// well-formed decimals in range.
pub fn parse_u64_dec(s: &Vec<u8>) -> (r: Option<u64>)
    ensures
        r matches Some(v) ==> is_dec_u64(s@) && v as nat == dec_val(s@),
        r is None ==> !is_dec_u64(s@),
{
    let n = s.len();
    if n == 0 {
        return None;
    }
    let mut acc: u64 = 0;
    let mut i: usize = 0;
    while i < n
        invariant
            n == s@.len(),
            i <= n,
            forall|t: int| 0 <= t < i as int ==> 0x30 <= #[trigger] s@[t] <= 0x39,
            acc as nat == dec_val(s@.subrange(0, i as int)),
        decreases n - i,
    {
        let b = s[i];
        if b < 0x30 || b > 0x39 {
            proof {
                assert(!is_dec_u64(s@));
            }
            return None;
        }
        let d = (b - 0x30) as u64;
        if acc > (u64::MAX - d) / 10 {
            proof {
                let cur = s@.subrange(0, i as int + 1);
                assert(cur.drop_last() =~= s@.subrange(0, i as int));
                assert(cur.last() == s@[i as int]);
                assert(dec_val(cur) == acc as nat * 10 + d);
                if is_dec_u64(s@) {
                    lemma_dec_val_prefix_le(s@, i as int + 1);
                }
                assert(!is_dec_u64(s@));
            }
            return None;
        }
        let acc2 = acc * 10 + d;
        proof {
            let cur = s@.subrange(0, i as int + 1);
            assert(cur.drop_last() =~= s@.subrange(0, i as int));
            assert(cur.last() == s@[i as int]);
        }
        acc = acc2;
        i = i + 1;
    }
    proof {
        assert(s@.subrange(0, n as int) =~= s@);
    }
    Some(acc)
}

/// For a digit string, a prefix never exceeds the whole string's value.
pub(crate) proof fn lemma_dec_val_prefix_le(s: Seq<u8>, k: int)
    requires
        0 <= k <= s.len(),
        forall|i: int| 0 <= i < s.len() ==> 0x30 <= #[trigger] s[i] <= 0x39,
    ensures
        dec_val(s.subrange(0, k)) <= dec_val(s),
    decreases s.len() - k,
{
    if k < s.len() {
        lemma_dec_val_prefix_le(s, k + 1);
        let cur = s.subrange(0, k + 1);
        assert(cur.drop_last() =~= s.subrange(0, k));
        assert(cur.last() == s[k]);
        assert(dec_val(cur) == dec_val(s.subrange(0, k)) * 10 + (cur.last() - 0x30));
        assert(dec_val(s.subrange(0, k)) * 10 >= dec_val(s.subrange(0, k)))
            by (nonlinear_arith);
    } else {
        assert(s.subrange(0, k) =~= s);
    }
}

/// Whether a value flattens without error.
pub open spec fn flatten_ok(v: InputValue) -> bool
    decreases v,
{
    match v {
        InputValue::Uint(u) => true,
        InputValue::Negative => false,
        InputValue::Text(s) => is_dec_u64(s@),
        InputValue::Flag(b) => true,
        InputValue::Null => true,
        InputValue::List(items) => forall|i: int|
            0 <= i < items@.len() ==> flatten_ok(#[trigger] items@[i]),
        InputValue::Nested => true,
    }
}

/// The integer values a value flattens to, depth first.
pub open spec fn flatten_vals(v: InputValue) -> Seq<nat>
    decreases v, 0int,
{
    match v {
        InputValue::Uint(u) => seq![u as nat],
        InputValue::Negative => Seq::empty(),
        InputValue::Text(s) => seq![dec_val(s@)],
        InputValue::Flag(b) => seq![
            if b {
                1nat
            } else {
                0nat
            },
        ],
        InputValue::Null => seq![0nat],
        InputValue::List(items) => flatten_list(items, 0),
        InputValue::Nested => Seq::empty(),
    }
}

/// The concatenated flattening of a list of values from position `k` on.
pub open spec fn flatten_list(items: Vec<InputValue>, k: int) -> Seq<nat>
    decreases items, items@.len() - k,
{
    if k < 0 || k >= items@.len() {
        Seq::empty()
    } else {
        flatten_vals(items@[k]) + flatten_list(items, k + 1)
    }
}

/// The flattening of the first `k` values of a list.
pub open spec fn flatten_prefix(items: Vec<InputValue>, k: int) -> Seq<nat>
    decreases k,
{
    if k <= 0 {
        Seq::empty()
    } else {
        flatten_prefix(items, k - 1) + flatten_vals(items@[k - 1])
    }
}

proof fn lemma_flatten_prefix_zero(items: Vec<InputValue>)
    ensures
        flatten_prefix(items, 0) == Seq::<nat>::empty(),
{
}

/// One more value extends the flattened prefix by its own flattening.
proof fn lemma_flatten_prefix_step(items: Vec<InputValue>, k: int)
    requires
        0 <= k,
    ensures
        flatten_prefix(items, k + 1) == flatten_prefix(items, k) + flatten_vals(items@[k]),
{
}

/// The whole list's flattening is the flattening of its full prefix.
proof fn lemma_flatten_prefix_full(items: Vec<InputValue>)
    ensures
        flatten_prefix(items, items@.len() as int) == flatten_list(items, 0),
{
    let n = items@.len() as int;
    lemma_flatten_split(items, n);
    assert(flatten_list(items, n) =~= Seq::<nat>::empty());
    assert(flatten_prefix(items, n) + Seq::<nat>::empty() =~= flatten_prefix(items, n));
}

/// Splitting: the suffix flattening from zero equals any prefix plus the
/// suffix from there.
proof fn lemma_flatten_split(items: Vec<InputValue>, k: int)
    requires
        0 <= k <= items@.len(),
    ensures
        flatten_list(items, 0) == flatten_prefix(items, k) + flatten_list(items, k),
    decreases k,
{
    if k == 0 {
        assert(flatten_prefix(items, 0) + flatten_list(items, 0) =~= flatten_list(items, 0));
    } else {
        lemma_flatten_split(items, k - 1);
        assert(flatten_list(items, k - 1) == flatten_vals(items@[k - 1]) + flatten_list(
            items,
            k,
        ));
        assert(flatten_prefix(items, k - 1) + (flatten_vals(items@[k - 1]) + flatten_list(
            items,
            k,
        )) =~= (flatten_prefix(items, k - 1) + flatten_vals(items@[k - 1])) + flatten_list(
            items,
            k,
        ));
    }
}

/// Appends the flattening of one value; fails with `UnsupportedValue`
/// exactly when the value holds a negative integer or a malformed decimal
/// string anywhere.
pub fn flatten_value(v: &InputValue, out: &mut Vec<Fe>) -> (r: Result<(), Error>)
    requires
        forall|i: int| 0 <= i < old(out)@.len() ==> (#[trigger] old(out)@[i]).wf(),
    ensures
        r is Ok <==> flatten_ok(*v),
        r is Ok ==> {
            &&& final(out)@.len() == old(out)@.len() + flatten_vals(*v).len()
            &&& (forall|i: int|
                0 <= i < old(out)@.len() ==> (#[trigger] final(out)@[i]) == old(out)@[i])
            &&& (forall|i: int|
                0 <= i < flatten_vals(*v).len() ==> (#[trigger] final(out)@[old(out)@.len()
                    + i]).wf() && final(out)@[old(out)@.len() + i].val() == flatten_vals(*v)[i])
        },
        r is Err ==> r == Err::<(), Error>(Error::UnsupportedValue),
    decreases *v,
{
    match v {
        InputValue::Uint(u) => {
            out.push(fe_from_u64(*u));
            Ok(())
        },
        InputValue::Negative => Err(Error::UnsupportedValue),
        InputValue::Text(s) => {
            match parse_u64_dec(s) {
                Some(u) => {
                    out.push(fe_from_u64(u));
                    Ok(())
                },
                None => Err(Error::UnsupportedValue),
            }
        },
        InputValue::Flag(b) => {
            out.push(
                fe_from_u64(
                    if *b {
                        1
                    } else {
                        0
                    },
                ),
            );
            Ok(())
        },
        InputValue::Null => {
            out.push(fe_from_u64(0));
            Ok(())
        },
        InputValue::List(items) => {
            let n = items.len();
            let mut i: usize = 0;
            proof {
                lemma_flatten_prefix_zero(*items);
            }
            while i < n
                invariant
                    *v == InputValue::List(*items),
                    n == items@.len(),
                    i <= n,
                    forall|t: int| 0 <= t < i as int ==> flatten_ok(#[trigger] items@[t]),
                    forall|t: int| 0 <= t < out@.len() ==> (#[trigger] out@[t]).wf(),
                    out@.len() == old(out)@.len() + flatten_prefix(*items, i as int).len(),
                    forall|t: int|
                        0 <= t < old(out)@.len() ==> (#[trigger] out@[t]) == old(out)@[t],
                    forall|t: int|
                        0 <= t < flatten_prefix(*items, i as int).len() ==> (
                        #[trigger] out@[old(out)@.len() + t]).val() == flatten_prefix(
                            *items,
                            i as int,
                        )[t],
                decreases n - i,
            {
                let ghost pre_out = out@;
                proof {
                    assert(v is List);
                    assert(((*v)->List_0)@ == (*items)@);
                    assert(decreases_to!(*v => (*v)->List_0));
                    assert(decreases_to!((*v)->List_0 => ((*v)->List_0)@));
                    assert(decreases_to!(((*v)->List_0)@ => ((*v)->List_0)@[i as int]));
                    assert(((*v)->List_0)@[i as int] == (*items)@[i as int]);
                    assert(decreases_to!(*v => (*items)@[i as int]));
                }
                let res = flatten_value(&items[i], out);
                match res {
                    Ok(u) => {},
                    Err(e) => {
                        proof {
                            assert(!flatten_ok(items@[i as int]));
                            assert(!flatten_ok(*v));
                        }
                        return Err(e);
                    },
                }
                proof {
                    lemma_flatten_prefix_step(*items, i as int);
                    assert forall|t: int| 0 <= t < out@.len() implies (
                    #[trigger] out@[t]).wf() by {
                        if t < pre_out.len() {
                            assert(out@[t] == pre_out[t]);
                        } else {
                            let k = t - pre_out.len();
                            assert(out@[pre_out.len() + k].wf());
                        }
                    }
                    assert forall|t: int|
                        0 <= t < flatten_prefix(*items, i as int + 1).len() implies (
                    #[trigger] out@[old(out)@.len() + t]).val() == flatten_prefix(
                        *items,
                        i as int + 1,
                    )[t] by {
                        let pl = flatten_prefix(*items, i as int).len() as int;
                        if t < pl {
                            assert(out@[old(out)@.len() + t] == pre_out[old(out)@.len() + t]);
                        } else {
                            let k = t - pl;
                            assert(out@[pre_out.len() + k].val() == flatten_vals(
                                (*items)@[i as int],
                            )[k]);
                        }
                    }
                }
                i = i + 1;
            }
            proof {
                lemma_flatten_prefix_full(*items);
            }
            Ok(())
        },
        InputValue::Nested => Ok(()),
    }
}

/// Byte-lexicographic order (with shorter prefixes first).
pub open spec fn bytes_le(a: Seq<u8>, b: Seq<u8>) -> bool
    decreases a.len() + b.len(),
{
    if a.len() == 0 {
        true
    } else if b.len() == 0 {
        false
    } else if a[0] < b[0] {
        true
    } else if a[0] > b[0] {
        false
    } else {
        bytes_le(a.subrange(1, a.len() as int), b.subrange(1, b.len() as int))
    }
}

/// Compares two byte strings lexicographically.
fn bytes_le_exec(a: &Vec<u8>, b: &Vec<u8>) -> (r: bool)
    ensures
        r == bytes_le(a@, b@),
{
    let r = bytes_le_from(a, b, 0);
    proof {
        assert(a@.subrange(0, a@.len() as int) =~= a@);
        assert(b@.subrange(0, b@.len() as int) =~= b@);
    }
    r
}

/// Compares the suffixes of two byte strings from `k` on.
fn bytes_le_from(a: &Vec<u8>, b: &Vec<u8>, k: usize) -> (r: bool)
    requires
        k <= a@.len(),
        k <= b@.len(),
    ensures
        r == bytes_le(a@.subrange(k as int, a@.len() as int), b@.subrange(k as int, b@.len() as int)),
    decreases a@.len() - k,
{
    let na = a.len();
    let nb = b.len();
    if k == na {
        proof {
            assert(a@.subrange(k as int, na as int).len() == 0);
        }
        true
    } else if k == nb {
        false
    } else if a[k] < b[k] {
        true
    } else if a[k] > b[k] {
        false
    } else {
        let r = bytes_le_from(a, b, k + 1);
        proof {
            let sa = a@.subrange(k as int, na as int);
            let sb = b@.subrange(k as int, nb as int);
            assert(sa[0] == a@[k as int] && sb[0] == b@[k as int]);
            assert(sa.subrange(1, sa.len() as int) =~= a@.subrange(k as int + 1, na as int));
            assert(sb.subrange(1, sb.len() as int) =~= b@.subrange(k as int + 1, nb as int));
        }
        r
    }
}

/// The order is total: of any two byte strings, one precedes the other.
proof fn lemma_bytes_le_total(a: Seq<u8>, b: Seq<u8>)
    ensures
        bytes_le(a, b) || bytes_le(b, a),
    decreases a.len() + b.len(),
{
    if a.len() > 0 && b.len() > 0 && a[0] == b[0] {
        lemma_bytes_le_total(a.subrange(1, a.len() as int), b.subrange(1, b.len() as int));
    }
}

/// The order is transitive.
proof fn lemma_bytes_le_trans(a: Seq<u8>, b: Seq<u8>, c: Seq<u8>)
    requires
        bytes_le(a, b),
        bytes_le(b, c),
    ensures
        bytes_le(a, c),
    decreases a.len() + b.len() + c.len(),
{
    if a.len() > 0 && b.len() > 0 && c.len() > 0 && a[0] == b[0] && b[0] == c[0] {
        lemma_bytes_le_trans(
            a.subrange(1, a.len() as int),
            b.subrange(1, b.len() as int),
            c.subrange(1, c.len() as int),
        );
    }
}

/// The flattened values of the chosen entries, in the order chosen.
pub open spec fn flatten_order(entries: Seq<(Vec<u8>, InputValue)>, order: Seq<int>) -> Seq<
    nat,
>
    decreases order.len(),
{
    if order.len() == 0 {
        Seq::empty()
    } else {
        flatten_order(entries, order.drop_last()) + flatten_vals(entries[order.last()].1)
    }
}

/// Whether `order` lists every index below `n` exactly once.
pub open spec fn is_index_permutation(order: Seq<int>, n: nat) -> bool {
    &&& order.len() == n
    &&& (forall|k: int| 0 <= k < order.len() ==> 0 <= #[trigger] order[k] < n)
    &&& (forall|a: int, b: int|
        #![trigger order[a], order[b]]
        0 <= a < b < order.len() ==> order[a] != order[b])
}

/// Whether index `iv` appears in the pool or in the chosen order.
pub open spec fn covered(pool: Seq<usize>, order: Seq<usize>, iv: int) -> bool {
    (exists|t: int| 0 <= t < pool.len() && (#[trigger] pool[t]) as int == iv) || (exists|t: int|
        0 <= t < order.len() && (#[trigger] order[t]) as int == iv)
}

/// Whether the entry names ascend along `order`.
pub open spec fn order_sorted_by_name(
    entries: Seq<(Vec<u8>, InputValue)>,
    order: Seq<int>,
) -> bool {
    forall|a: int, b: int|
        #![trigger order[a], order[b]]
        0 <= a < b < order.len() ==> bytes_le(entries[order[a]].0@, entries[order[b]].0@)
}

/// Flattens a named input map into the ordered instance vector: entries
/// are taken in ascending byte order of their names (deterministic, for
/// consumers that accept lexicographic ordering) and flattened depth
/// first.  Fails with `UnsupportedValue` exactly when some value holds a
/// negative integer or a malformed decimal string.
pub fn parse_circuit_inputs(entries: Vec<(Vec<u8>, InputValue)>) -> (r: Result<Vec<Fe>, Error>)
    ensures
        r is Ok <==> (forall|i: int|
            0 <= i < entries@.len() ==> flatten_ok((#[trigger] entries@[i]).1)),
        r matches Ok(vals) ==> {
            &&& (forall|k: int| 0 <= k < vals@.len() ==> (#[trigger] vals@[k]).wf())
            &&& exists|order: Seq<int>|
                {
                    &&& #[trigger] is_index_permutation(order, entries@.len())
                    &&& order_sorted_by_name(entries@, order)
                    &&& Seq::new(vals@.len(), |k: int| vals@[k].val()) == flatten_order(
                        entries@,
                        order,
                    )
                }
        },
        r matches Err(e) ==> e == Error::UnsupportedValue,
{
    let n = entries.len();
    let mut pool: Vec<usize> = Vec::new();
    let mut i: usize = 0;
    while i < n
        invariant
            i <= n,
            pool@.len() == i as nat,
            forall|t: int| 0 <= t < i as int ==> #[trigger] pool@[t] == t,
        decreases n - i,
    {
        pool.push(i);
        i = i + 1;
    }
    let mut order: Vec<usize> = Vec::new();
    let mut out: Vec<Fe> = Vec::new();
    proof {
        assert forall|iv: int| 0 <= iv < n as int implies #[trigger] covered(
            pool@,
            order@,
            iv,
        ) by {
            assert(pool@[iv] as int == iv);
        }
    }
    while pool.len() > 0
        invariant
            n == entries@.len(),
            order@.len() + pool@.len() == n as nat,
            forall|t: int| 0 <= t < pool@.len() ==> (#[trigger] pool@[t]) < n,
            forall|a: int, b: int|
                #![trigger pool@[a], pool@[b]]
                0 <= a < b < pool@.len() ==> pool@[a] != pool@[b],
            forall|t: int| 0 <= t < order@.len() ==> (#[trigger] order@[t]) < n,
            forall|a: int, b: int|
                #![trigger order@[a], order@[b]]
                0 <= a < b < order@.len() ==> order@[a] != order@[b],
            forall|a: int, b: int|
                #![trigger order@[a], pool@[b]]
                0 <= a < order@.len() && 0 <= b < pool@.len() ==> order@[a] != pool@[b],
            forall|iv: int| 0 <= iv < n as int ==> #[trigger] covered(pool@, order@, iv),
            forall|a: int, b: int|
                #![trigger order@[a], order@[b]]
                0 <= a < b < order@.len() ==> bytes_le(
                    entries@[order@[a] as int].0@,
                    entries@[order@[b] as int].0@,
                ),
            forall|a: int, b: int|
                #![trigger order@[a], pool@[b]]
                0 <= a < order@.len() && 0 <= b < pool@.len() ==> bytes_le(
                    entries@[order@[a] as int].0@,
                    entries@[pool@[b] as int].0@,
                ),
            forall|t: int|
                0 <= t < order@.len() ==> flatten_ok(entries@[(#[trigger] order@[t]) as int].1),
            forall|k: int| 0 <= k < out@.len() ==> (#[trigger] out@[k]).wf(),
            Seq::new(out@.len(), |k: int| out@[k].val()) == flatten_order(
                entries@,
                Seq::new(order@.len(), |k: int| order@[k] as int),
            ),
        decreases pool@.len(),
    {
        // Select the pool position whose entry name is smallest.
        let mut best: usize = 0;
        let mut t: usize = 1;
        proof {
            lemma_bytes_le_total(entries@[pool@[0] as int].0@, entries@[pool@[0] as int].0@);
        }
        while t < pool.len()
            invariant
                n == entries@.len(),
                pool@.len() > 0,
                forall|u: int| 0 <= u < pool@.len() ==> (#[trigger] pool@[u]) < n,
                best < pool@.len(),
                t <= pool@.len(),
                forall|j: int|
                    0 <= j < t as int ==> bytes_le(
                        entries@[pool@[best as int] as int].0@,
                        entries@[(#[trigger] pool@[j]) as int].0@,
                    ),
            decreases pool@.len() - t,
        {
            let smaller = bytes_le_exec(&entries[pool[t]].0, &entries[pool[best]].0)
                && !bytes_le_exec(&entries[pool[best]].0, &entries[pool[t]].0);
            proof {
                lemma_bytes_le_total(entries@[pool@[best as int] as int].0@,
                    entries@[pool@[t as int] as int].0@);
            }
            if smaller {
                proof {
                    lemma_bytes_le_total(entries@[pool@[t as int] as int].0@,
                        entries@[pool@[t as int] as int].0@);
                    assert forall|j: int| 0 <= j < t as int + 1 implies bytes_le(
                        entries@[pool@[t as int] as int].0@,
                        entries@[(#[trigger] pool@[j]) as int].0@,
                    ) by {
                        if j < t as int {
                            lemma_bytes_le_trans(entries@[pool@[t as int] as int].0@,
                                entries@[pool@[best as int] as int].0@,
                                entries@[pool@[j] as int].0@);
                        }
                    }
                }
                best = t;
            }
            t = t + 1;
        }
        let ghost pre_pool = pool@;
        let ghost pre_order = order@;
        let ghost pre_out = out@;
        let idx = pool.remove(best);
        proof {
            assert(idx == pre_pool[best as int]);
        }
        match flatten_value(&entries[idx].1, &mut out) {
            Ok(u) => {},
            Err(e) => {
                proof {
                    assert(!flatten_ok(entries@[idx as int].1));
                }
                return Err(e);
            },
        }
        order.push(idx);
        proof {
            assert forall|b: int| 0 <= b < pool@.len() implies pool@[b] != idx && bytes_le(
                entries@[idx as int].0@,
                entries@[(#[trigger] pool@[b]) as int].0@,
            ) by {
                if b < best as int {
                    assert(pool@[b] == pre_pool[b]);
                } else {
                    assert(pool@[b] == pre_pool[b + 1]);
                }
            }
            assert forall|iv: int| 0 <= iv < n as int implies #[trigger] covered(
                pool@,
                order@,
                iv,
            ) by {
                assert(covered(pre_pool, pre_order, iv));
                if exists|t2: int|
                    0 <= t2 < pre_pool.len() && (#[trigger] pre_pool[t2]) as int == iv {
                    let w = choose|t2: int|
                        0 <= t2 < pre_pool.len() && (#[trigger] pre_pool[t2]) as int == iv;
                    if w == best as int {
                        assert(order@[order@.len() - 1] as int == iv);
                    } else if w < best as int {
                        assert(pool@[w] as int == iv);
                    } else {
                        assert(pool@[w - 1] as int == iv);
                    }
                } else {
                    let w = choose|t2: int|
                        0 <= t2 < pre_order.len() && (#[trigger] pre_order[t2]) as int == iv;
                    assert(order@[w] as int == iv);
                }
            }
            assert forall|k: int| 0 <= k < out@.len() implies (#[trigger] out@[k]).wf() by {
                if k < pre_out.len() {
                    assert(out@[k] == pre_out[k]);
                } else {
                    let d = k - pre_out.len();
                    assert(out@[pre_out.len() + d].wf());
                }
            }
            let noseq = Seq::new(order@.len(), |k: int| order@[k] as int);
            assert(noseq.drop_last() =~= Seq::new(pre_order.len(), |k: int| pre_order[k] as int));
            assert(noseq.last() == idx as int);
            let vseq = Seq::new(out@.len(), |q: int| out@[q].val());
            assert forall|k: int|
                0 <= k < flatten_order(entries@, noseq).len() implies #[trigger] vseq[k]
                == flatten_order(entries@, noseq)[k] by {
                if k < pre_out.len() {
                    assert(out@[k] == pre_out[k]);
                } else {
                    let d = k - pre_out.len();
                    assert(out@[pre_out.len() + d].val() == flatten_vals(
                        entries@[idx as int].1,
                    )[d]);
                }
            }
            assert(vseq =~= flatten_order(entries@, noseq));
        }
    }
    proof {
        let oseq = Seq::new(order@.len(), |k: int| order@[k] as int);
        assert(is_index_permutation(oseq, entries@.len()));
        assert(order_sorted_by_name(entries@, oseq));
        assert forall|iv: int| 0 <= iv < entries@.len() implies flatten_ok(
            (#[trigger] entries@[iv]).1,
        ) by {
            assert(covered(pool@, order@, iv));
            let w = choose|t2: int|
                0 <= t2 < order@.len() && (#[trigger] order@[t2]) as int == iv;
            assert(order@[w] as int == iv);
            assert(flatten_ok(entries@[order@[w] as int].1));
        }
    }
    Ok(out)
}

/// Whether the table knows index `iv`'s name.
pub open spec fn entry_known(
    table: Seq<(Vec<u8>, u32)>,
    entries: Seq<(Vec<u8>, InputValue)>,
    iv: int,
) -> bool {
    crate::sym::lookup_spec(table, entries[iv].0@) is Some
}

/// The wire the table gives index `iv`'s name.
pub open spec fn entry_wire(
    table: Seq<(Vec<u8>, u32)>,
    entries: Seq<(Vec<u8>, InputValue)>,
    iv: int,
) -> u32 {
    crate::sym::lookup_spec(table, entries[iv].0@).unwrap()
}

/// Whether index `iv` appears in the keyed pool or in the chosen order.
pub open spec fn known_covered(keyed: Seq<(u32, usize)>, order: Seq<usize>, iv: int) -> bool {
    (exists|t: int| 0 <= t < keyed.len() && (#[trigger] keyed[t]).1 as int == iv) || (exists|
        t: int,
    |
        0 <= t < order.len() && (#[trigger] order[t]) as int == iv)
}

/// Orders a named input map by a symbol table: entries whose signal name
/// the table knows are flattened in ascending order of their wire index;
/// entries the table does not know are skipped.  This is the normative
/// ordering; the sorted-name path above serves consumers that accept
/// lexicographic ordering.
pub fn map_inputs_with_sym(
    entries: &Vec<(Vec<u8>, InputValue)>,
    table: &crate::sym::SymTable,
) -> (r: Result<Vec<Fe>, Error>)
    ensures
        r is Ok <==> (forall|i: int|
            0 <= i < entries@.len() ==> (entry_known(table.entries@, entries@, i)
                ==> flatten_ok((#[trigger] entries@[i]).1))),
        r matches Ok(vals) ==> {
            &&& (forall|k: int| 0 <= k < vals@.len() ==> (#[trigger] vals@[k]).wf())
            &&& exists|order: Seq<int>|
                {
                    &&& (forall|k: int|
                        0 <= k < order.len() ==> 0 <= #[trigger] order[k] < entries@.len())
                    &&& (forall|a: int, b: int|
                        #![trigger order[a], order[b]]
                        0 <= a < b < order.len() ==> order[a] != order[b])
                    &&& (forall|i: int|
                        0 <= i < entries@.len() ==> (entry_known(
                            table.entries@,
                            entries@,
                            i,
                        ) <==> #[trigger] order.contains(i)))
                    &&& (forall|a: int, b: int|
                        #![trigger order[a], order[b]]
                        0 <= a < b < order.len() ==> entry_wire(table.entries@, entries@, order[a])
                            <= entry_wire(table.entries@, entries@, order[b]))
                    &&& Seq::new(vals@.len(), |k: int| vals@[k].val()) == flatten_order(
                        entries@,
                        order,
                    )
                }
        },
        r matches Err(e) ==> e == Error::UnsupportedValue,
{
    let n = entries.len();
    let mut keyed: Vec<(u32, usize)> = Vec::new();
    let mut i: usize = 0;
    while i < n
        invariant
            n == entries@.len(),
            i <= n,
            forall|t: int| 0 <= t < keyed@.len() ==> ((#[trigger] keyed@[t]).1 as int) < i,
            forall|t: int|
                0 <= t < keyed@.len() ==> crate::sym::lookup_spec(
                    table.entries@,
                    entries@[(#[trigger] keyed@[t]).1 as int].0@,
                ) == Some(keyed@[t].0),
            forall|a: int, b: int|
                #![trigger keyed@[a], keyed@[b]]
                0 <= a < b < keyed@.len() ==> keyed@[a].1 != keyed@[b].1,
            forall|iv: int|
                0 <= iv < i as int && entry_known(table.entries@, entries@, iv)
                    ==> #[trigger] known_covered(keyed@, Seq::empty(), iv),
        decreases n - i,
    {
        let ghost pre_keyed = keyed@;
        match table.lookup(&entries[i].0) {
            Some(w) => {
                keyed.push((w, i));
            },
            None => {},
        }
        proof {
            assert forall|iv: int|
                0 <= iv < i as int + 1 && entry_known(table.entries@, entries@, iv)
                implies #[trigger] known_covered(keyed@, Seq::empty(), iv) by {
                if iv < i as int {
                    assert(known_covered(pre_keyed, Seq::empty(), iv));
                    let w2 = choose|t: int|
                        0 <= t < pre_keyed.len() && (#[trigger] pre_keyed[t]).1 as int == iv;
                    assert(keyed@[w2].1 as int == iv);
                } else {
                    assert(keyed@[keyed@.len() - 1].1 as int == iv);
                }
            }
        }
        i = i + 1;
    }

    let mut order: Vec<usize> = Vec::new();
    let mut out: Vec<Fe> = Vec::new();
    proof {
        assert forall|iv: int|
            0 <= iv < n as int && entry_known(table.entries@, entries@, iv)
            implies #[trigger] known_covered(keyed@, order@, iv) by {
            assert(known_covered(keyed@, Seq::empty(), iv));
        }
    }
    while keyed.len() > 0
        invariant
            n == entries@.len(),
            forall|t: int| 0 <= t < keyed@.len() ==> ((#[trigger] keyed@[t]).1 as int) < n,
            forall|t: int|
                0 <= t < keyed@.len() ==> crate::sym::lookup_spec(
                    table.entries@,
                    entries@[(#[trigger] keyed@[t]).1 as int].0@,
                ) == Some(keyed@[t].0),
            forall|a: int, b: int|
                #![trigger keyed@[a], keyed@[b]]
                0 <= a < b < keyed@.len() ==> keyed@[a].1 != keyed@[b].1,
            forall|t: int| 0 <= t < order@.len() ==> ((#[trigger] order@[t]) as int) < n,
            forall|t: int|
                0 <= t < order@.len() ==> entry_known(
                    table.entries@,
                    entries@,
                    (#[trigger] order@[t]) as int,
                ),
            forall|a: int, b: int|
                #![trigger order@[a], order@[b]]
                0 <= a < b < order@.len() ==> order@[a] != order@[b],
            forall|a: int, b: int|
                #![trigger order@[a], keyed@[b]]
                0 <= a < order@.len() && 0 <= b < keyed@.len() ==> order@[a] != keyed@[b].1,
            forall|iv: int|
                0 <= iv < n as int && entry_known(table.entries@, entries@, iv)
                    ==> #[trigger] known_covered(keyed@, order@, iv),
            forall|a: int, b: int|
                #![trigger order@[a], order@[b]]
                0 <= a < b < order@.len() ==> entry_wire(
                    table.entries@,
                    entries@,
                    order@[a] as int,
                ) <= entry_wire(table.entries@, entries@, order@[b] as int),
            forall|a: int, b: int|
                #![trigger order@[a], keyed@[b]]
                0 <= a < order@.len() && 0 <= b < keyed@.len() ==> entry_wire(
                    table.entries@,
                    entries@,
                    order@[a] as int,
                ) <= keyed@[b].0,
            forall|t: int|
                0 <= t < order@.len() ==> flatten_ok(entries@[(#[trigger] order@[t]) as int].1),
            forall|k: int| 0 <= k < out@.len() ==> (#[trigger] out@[k]).wf(),
            Seq::new(out@.len(), |k: int| out@[k].val()) == flatten_order(
                entries@,
                Seq::new(order@.len(), |k: int| order@[k] as int),
            ),
        decreases keyed@.len(),
    {
        let mut best: usize = 0;
        let mut t: usize = 1;
        while t < keyed.len()
            invariant
                keyed@.len() > 0,
                best < keyed@.len(),
                t <= keyed@.len(),
                forall|j: int|
                    0 <= j < t as int ==> keyed@[best as int].0 <= (#[trigger] keyed@[j]).0,
            decreases keyed@.len() - t,
        {
            if keyed[t].0 < keyed[best].0 {
                best = t;
            }
            t = t + 1;
        }
        let ghost pre_keyed = keyed@;
        let ghost pre_order = order@;
        let ghost pre_out = out@;
        let picked = keyed.remove(best);
        let idx = picked.1;
        proof {
            assert(picked == pre_keyed[best as int]);
            assert(crate::sym::lookup_spec(table.entries@, entries@[idx as int].0@) == Some(
                picked.0,
            ));
        }
        match flatten_value(&entries[idx].1, &mut out) {
            Ok(u) => {},
            Err(e) => {
                proof {
                    assert(entry_known(table.entries@, entries@, idx as int));
                    assert(!flatten_ok(entries@[idx as int].1));
                }
                return Err(e);
            },
        }
        order.push(idx);
        proof {
            assert forall|b: int| 0 <= b < keyed@.len() implies (#[trigger] keyed@[b]).1 != idx
                && picked.0 <= keyed@[b].0 by {
                if b < best as int {
                    assert(keyed@[b] == pre_keyed[b]);
                } else {
                    assert(keyed@[b] == pre_keyed[b + 1]);
                }
            }
            assert forall|iv: int|
                0 <= iv < n as int && entry_known(table.entries@, entries@, iv)
                implies #[trigger] known_covered(keyed@, order@, iv) by {
                assert(known_covered(pre_keyed, pre_order, iv));
                if exists|t2: int|
                    0 <= t2 < pre_keyed.len() && (#[trigger] pre_keyed[t2]).1 as int == iv {
                    let w = choose|t2: int|
                        0 <= t2 < pre_keyed.len() && (#[trigger] pre_keyed[t2]).1 as int == iv;
                    if w == best as int {
                        assert(order@[order@.len() - 1] as int == iv);
                    } else if w < best as int {
                        assert(keyed@[w].1 as int == iv);
                    } else {
                        assert(keyed@[w - 1].1 as int == iv);
                    }
                } else {
                    let w = choose|t2: int|
                        0 <= t2 < pre_order.len() && (#[trigger] pre_order[t2]) as int == iv;
                    assert(order@[w] as int == iv);
                }
            }
            assert forall|k: int| 0 <= k < out@.len() implies (#[trigger] out@[k]).wf() by {
                if k < pre_out.len() {
                    assert(out@[k] == pre_out[k]);
                } else {
                    let d = k - pre_out.len();
                    assert(out@[pre_out.len() + d].wf());
                }
            }
            let noseq = Seq::new(order@.len(), |k: int| order@[k] as int);
            assert(noseq.drop_last() =~= Seq::new(pre_order.len(), |k: int| pre_order[k] as int));
            assert(noseq.last() == idx as int);
            let vseq = Seq::new(out@.len(), |q: int| out@[q].val());
            assert forall|k: int|
                0 <= k < flatten_order(entries@, noseq).len() implies #[trigger] vseq[k]
                == flatten_order(entries@, noseq)[k] by {
                if k < pre_out.len() {
                    assert(out@[k] == pre_out[k]);
                } else {
                    let d = k - pre_out.len();
                    assert(out@[pre_out.len() + d].val() == flatten_vals(
                        entries@[idx as int].1,
                    )[d]);
                }
            }
            assert(vseq =~= flatten_order(entries@, noseq));
        }
    }
    proof {
        let oseq = Seq::new(order@.len(), |k: int| order@[k] as int);
        assert forall|iv: int| 0 <= iv < entries@.len() implies (entry_known(
            table.entries@,
            entries@,
            iv,
        ) <==> #[trigger] oseq.contains(iv)) by {
            if entry_known(table.entries@, entries@, iv) {
                assert(known_covered(keyed@, order@, iv));
                let w = choose|t2: int|
                    0 <= t2 < order@.len() && (#[trigger] order@[t2]) as int == iv;
                assert(oseq[w] == iv);
            }
            if oseq.contains(iv) {
                let w = choose|t2: int| 0 <= t2 < oseq.len() && #[trigger] oseq[t2] == iv;
                assert(entry_known(table.entries@, entries@, order@[w] as int));
            }
        }
        assert forall|iv: int|
            0 <= iv < entries@.len() && entry_known(table.entries@, entries@, iv)
            implies flatten_ok((#[trigger] entries@[iv]).1) by {
            assert(known_covered(keyed@, order@, iv));
            let w = choose|t2: int|
                0 <= t2 < order@.len() && (#[trigger] order@[t2]) as int == iv;
            assert(flatten_ok(entries@[order@[w] as int].1));
        }
    }
    Ok(out)
}

} // verus!
