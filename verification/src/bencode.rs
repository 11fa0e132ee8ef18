//! Bencode values: a minimal encoder and decoder for .torrent files and
//! tracker responses.
//!
//! A value is modelled by `BTerm`, its mathematical meaning; `enc` states the
//! encoding and `dec` the decoding, byte for byte.
use vstd::prelude::*;
use vstd::string::StringSliceAdditionalSpecFns;


verus! {

/// The mathematical meaning of a bencode value.
pub enum BTerm {
    Int(int),
    Bytes(Seq<u8>),
    List(Seq<BTerm>),
    Dict(Seq<(Seq<u8>, BTerm)>),
}

/// A bencode value.
pub enum BValue {
    Int(i64),
    Bytes(Vec<u8>),
    List(Vec<BValue>),
    Dict(BDict),
}

/// A bencode dictionary: entries kept in strictly increasing key order, so
/// that each key occurs once and iteration is sorted.
pub struct BDict {
    entries: Vec<(Vec<u8>, BValue)>,
}

pub open spec fn term_of(v: BValue) -> BTerm
    decreases v,
{
    match v {
        BValue::Int(n) => BTerm::Int(n as int),
        BValue::Bytes(b) => BTerm::Bytes(b@),
        BValue::List(items) => BTerm::List(terms_of(items@)),
        BValue::Dict(d) => BTerm::Dict(dict_terms(d)),
    }
}

pub open spec fn terms_of(s: Seq<BValue>) -> Seq<BTerm>
    decreases s,
{
    if s.len() == 0 {
        Seq::empty()
    } else {
        terms_of(s.drop_last()).push(term_of(s.last()))
    }
}

pub open spec fn entries_of(s: Seq<(Vec<u8>, BValue)>) -> Seq<(Seq<u8>, BTerm)>
    decreases s,
{
    if s.len() == 0 {
        Seq::empty()
    } else {
        entries_of(s.drop_last()).push((s.last().0@, term_of(s.last().1)))
    }
}

/// The entries of a dictionary, each key by its bytes and each value by its meaning.
pub closed spec fn dict_terms(d: BDict) -> Seq<(Seq<u8>, BTerm)>
    decreases d,
{
    entries_of(d.entries@)
}

impl View for BValue {
    type V = BTerm;

    open spec fn view(&self) -> BTerm {
        term_of(*self)
    }
}

} // verus!

verus! {

// ----- order of keys -----

/// Byte strings in the order `Vec<u8>` compares them (lexicographic).
pub open spec fn bytes_lt(a: Seq<u8>, b: Seq<u8>) -> bool
    decreases a.len(),
{
    if a.len() == 0 {
        b.len() > 0
    } else if b.len() == 0 {
        false
    } else if a[0] != b[0] {
        a[0] < b[0]
    } else {
        bytes_lt(a.skip(1), b.skip(1))
    }
}

pub proof fn lemma_bytes_lt_irrefl(a: Seq<u8>)
    ensures
        !bytes_lt(a, a),
    decreases a.len(),
{
    if a.len() > 0 {
        lemma_bytes_lt_irrefl(a.skip(1));
    }
}

pub proof fn lemma_bytes_lt_asym(a: Seq<u8>, b: Seq<u8>)
    ensures
        bytes_lt(a, b) ==> !bytes_lt(b, a),
    decreases a.len(),
{
    if a.len() > 0 && b.len() > 0 && a[0] == b[0] {
        lemma_bytes_lt_asym(a.skip(1), b.skip(1));
    }
}

pub proof fn lemma_bytes_lt_trans(a: Seq<u8>, b: Seq<u8>, c: Seq<u8>)
    ensures
        bytes_lt(a, b) && bytes_lt(b, c) ==> bytes_lt(a, c),
    decreases a.len(),
{
    if a.len() > 0 && b.len() > 0 && c.len() > 0 {
        lemma_bytes_lt_trans(a.skip(1), b.skip(1), c.skip(1));
    }
}

pub proof fn lemma_bytes_lt_total(a: Seq<u8>, b: Seq<u8>)
    ensures
        a != b ==> bytes_lt(a, b) || bytes_lt(b, a),
    decreases a.len(),
{
    if a.len() > 0 && b.len() > 0 && a[0] == b[0] {
        lemma_bytes_lt_total(a.skip(1), b.skip(1));
        if a.skip(1) == b.skip(1) {
            assert(a =~= seq![a[0]] + a.skip(1));
            assert(b =~= seq![b[0]] + b.skip(1));
        }
    } else if a.len() == 0 && b.len() == 0 {
        assert(a =~= b);
    }
}

/// Keys strictly increasing: sorted, and each key once.
pub open spec fn keys_sorted(es: Seq<(Seq<u8>, BTerm)>) -> bool {
    forall|i: int, j: int| 0 <= i < j < es.len() ==> bytes_lt(#[trigger] es[i].0, #[trigger] es[j].0)
}

/// A well-formed value: every dictionary in it has strictly increasing keys.
pub open spec fn wf(t: BTerm) -> bool
    decreases t,
{
    match t {
        BTerm::Int(_) => true,
        BTerm::Bytes(_) => true,
        BTerm::List(items) => wf_list(items),
        BTerm::Dict(es) => keys_sorted(es) && wf_entries(es),
    }
}

pub open spec fn wf_list(s: Seq<BTerm>) -> bool
    decreases s,
{
    if s.len() == 0 {
        true
    } else {
        wf_list(s.drop_last()) && wf(s.last())
    }
}

pub open spec fn wf_entries(s: Seq<(Seq<u8>, BTerm)>) -> bool
    decreases s,
{
    if s.len() == 0 {
        true
    } else {
        wf_entries(s.drop_last()) && wf(s.last().1)
    }
}

// ----- dictionary insertion -----

/// The entries whose key is below `k`, in order.
pub open spec fn entries_below(s: Seq<(Seq<u8>, BTerm)>, k: Seq<u8>) -> Seq<(Seq<u8>, BTerm)>
    decreases s.len(),
{
    if s.len() == 0 {
        s
    } else if bytes_lt(s.last().0, k) {
        entries_below(s.drop_last(), k).push(s.last())
    } else {
        entries_below(s.drop_last(), k)
    }
}

/// The entries whose key is above `k`, in order.
pub open spec fn entries_above(s: Seq<(Seq<u8>, BTerm)>, k: Seq<u8>) -> Seq<(Seq<u8>, BTerm)>
    decreases s.len(),
{
    if s.len() == 0 {
        s
    } else if bytes_lt(k, s.last().0) {
        entries_above(s.drop_last(), k).push(s.last())
    } else {
        entries_above(s.drop_last(), k)
    }
}

/// What inserting `k -> v` into a sorted map does: the entry for `k` is
/// replaced or added, in its place in key order.
pub open spec fn dict_put(s: Seq<(Seq<u8>, BTerm)>, k: Seq<u8>, v: BTerm) -> Seq<(Seq<u8>, BTerm)> {
    entries_below(s, k) + seq![(k, v)] + entries_above(s, k)
}

pub proof fn lemma_below_above_concat(s1: Seq<(Seq<u8>, BTerm)>, s2: Seq<(Seq<u8>, BTerm)>, k: Seq<u8>)
    ensures
        entries_below(s1 + s2, k) == entries_below(s1, k) + entries_below(s2, k),
        entries_above(s1 + s2, k) == entries_above(s1, k) + entries_above(s2, k),
    decreases s2.len(),
{
    if s2.len() == 0 {
        assert(s1 + s2 =~= s1);
        assert(entries_below(s1, k) + entries_below(s2, k) =~= entries_below(s1, k));
        assert(entries_above(s1, k) + entries_above(s2, k) =~= entries_above(s1, k));
    } else {
        lemma_below_above_concat(s1, s2.drop_last(), k);
        assert((s1 + s2).drop_last() =~= s1 + s2.drop_last());
        assert((s1 + s2).last() == s2.last());
        assert(entries_below(s1 + s2, k) =~= entries_below(s1, k) + entries_below(s2, k));
        assert(entries_above(s1 + s2, k) =~= entries_above(s1, k) + entries_above(s2, k));
    }
}

/// Entries all below `k`: all of them are below, none above.
pub proof fn lemma_all_below(s: Seq<(Seq<u8>, BTerm)>, k: Seq<u8>)
    requires
        forall|i: int| 0 <= i < s.len() ==> bytes_lt(#[trigger] s[i].0, k),
    ensures
        entries_below(s, k) == s,
        entries_above(s, k).len() == 0,
    decreases s.len(),
{
    if s.len() > 0 {
        lemma_all_below(s.drop_last(), k);
        lemma_bytes_lt_asym(s.last().0, k);
        assert(entries_below(s, k) =~= s);
    }
}

/// Entries all above `k`: none of them is below, all above.
pub proof fn lemma_all_above(s: Seq<(Seq<u8>, BTerm)>, k: Seq<u8>)
    requires
        forall|i: int| 0 <= i < s.len() ==> bytes_lt(k, #[trigger] s[i].0),
    ensures
        entries_below(s, k).len() == 0,
        entries_above(s, k) == s,
    decreases s.len(),
{
    if s.len() > 0 {
        lemma_all_above(s.drop_last(), k);
        lemma_bytes_lt_asym(k, s.last().0);
        assert(entries_above(s, k) =~= s);
    }
}

/// The entry with key `k` itself is neither below nor above it.
pub proof fn lemma_single_equal(e: (Seq<u8>, BTerm), k: Seq<u8>)
    requires
        e.0 == k,
    ensures
        entries_below(seq![e], k).len() == 0,
        entries_above(seq![e], k).len() == 0,
{
    lemma_bytes_lt_irrefl(k);
    let s = seq![e];
    assert(s.drop_last() =~= Seq::<(Seq<u8>, BTerm)>::empty());
    assert(s.last() == e);
    assert(entries_below(s.drop_last(), k).len() == 0);
    assert(entries_above(s.drop_last(), k).len() == 0);
}

/// Appending an entry with a key above all others is what `dict_put` does.
pub proof fn lemma_put_at_end(s: Seq<(Seq<u8>, BTerm)>, k: Seq<u8>, v: BTerm)
    requires
        forall|i: int| 0 <= i < s.len() ==> bytes_lt(#[trigger] s[i].0, k),
    ensures
        dict_put(s, k, v) == s.push((k, v)),
{
    lemma_all_below(s, k);
    assert(dict_put(s, k, v) =~= s.push((k, v)));
}

// ----- encoding -----

/// The encoding of a byte string: its length in decimal, a colon, the bytes.
pub open spec fn enc_bytes(b: Seq<u8>) -> Seq<u8> {
    crate::decimal::digits_of(b.len()) + seq![58u8] + b
}

/// The bencode encoding of a value.
pub open spec fn enc(t: BTerm) -> Seq<u8>
    decreases t,
{
    match t {
        BTerm::Int(n) => seq![105u8] + crate::decimal::int_text(n) + seq![101u8],
        BTerm::Bytes(b) => enc_bytes(b),
        BTerm::List(items) => seq![108u8] + enc_list(items) + seq![101u8],
        BTerm::Dict(es) => seq![100u8] + enc_entries(es) + seq![101u8],
    }
}

pub open spec fn enc_list(s: Seq<BTerm>) -> Seq<u8>
    decreases s,
{
    if s.len() == 0 {
        Seq::empty()
    } else {
        enc_list(s.drop_last()) + enc(s.last())
    }
}

pub open spec fn enc_entries(s: Seq<(Seq<u8>, BTerm)>) -> Seq<u8>
    decreases s,
{
    if s.len() == 0 {
        Seq::empty()
    } else {
        enc_entries(s.drop_last()) + enc_bytes(s.last().0) + enc(s.last().1)
    }
}

} // verus!

verus! {

// ----- views of the executable containers -----

pub proof fn lemma_terms_of(s: Seq<BValue>)
    ensures
        terms_of(s).len() == s.len(),
        forall|i: int| 0 <= i < s.len() ==> #[trigger] terms_of(s)[i] == term_of(s[i]),
    decreases s.len(),
{
    if s.len() > 0 {
        lemma_terms_of(s.drop_last());
    }
}

pub proof fn lemma_entries_of(s: Seq<(Vec<u8>, BValue)>)
    ensures
        entries_of(s).len() == s.len(),
        forall|i: int| 0 <= i < s.len() ==> #[trigger] entries_of(s)[i] == (s[i].0@, term_of(s[i].1)),
    decreases s.len(),
{
    if s.len() > 0 {
        lemma_entries_of(s.drop_last());
    }
}

/// The value stored under `k`, if any (the first entry with that key).
pub open spec fn dict_lookup(es: Seq<(Seq<u8>, BTerm)>, k: Seq<u8>) -> Option<BTerm>
    decreases es.len(),
{
    if es.len() == 0 {
        None
    } else if es[0].0 == k {
        Some(es[0].1)
    } else {
        dict_lookup(es.skip(1), k)
    }
}

/// Compares byte strings as `Vec<u8>` orders them.
pub fn bytes_less(a: &[u8], b: &[u8]) -> (r: bool)
    ensures
        r == bytes_lt(a@, b@),
{
    let mut i: usize = 0;
    assert(a@.skip(0) =~= a@);
    assert(b@.skip(0) =~= b@);
    loop
        invariant
            0 <= i <= a@.len(),
            i <= b@.len(),
            bytes_lt(a@, b@) == bytes_lt(a@.skip(i as int), b@.skip(i as int)),
        decreases a@.len() - i,
    {
        if i == a.len() {
            return i < b.len();
        }
        if i == b.len() {
            return false;
        }
        if a[i] != b[i] {
            return a[i] < b[i];
        }
        assert(a@.skip(i as int).skip(1) =~= a@.skip(i + 1));
        assert(b@.skip(i as int).skip(1) =~= b@.skip(i + 1));
        i = i + 1;
    }
}

/// Compares byte strings for equality.
pub fn bytes_equal(a: &[u8], b: &[u8]) -> (r: bool)
    ensures
        r == (a@ == b@),
{
    if a.len() != b.len() {
        return false;
    }
    let mut i: usize = 0;
    while i < a.len()
        invariant
            0 <= i <= a@.len(),
            a@.len() == b@.len(),
            forall|m: int| 0 <= m < i ==> a@[m] == b@[m],
        decreases a@.len() - i,
    {
        if a[i] != b[i] {
            return false;
        }
        i = i + 1;
    }
    assert(a@ =~= b@);
    true
}

/// Sortedness after putting a key between the entries below it and those above.
proof fn lemma_sorted_put(t: Seq<(Seq<u8>, BTerm)>, p: int, q: int, k: Seq<u8>, v: BTerm)
    requires
        keys_sorted(t),
        0 <= p <= q <= t.len(),
        forall|i: int| 0 <= i < p ==> bytes_lt(#[trigger] t[i].0, k),
        forall|i: int| q <= i < t.len() ==> bytes_lt(k, #[trigger] t[i].0),
    ensures
        keys_sorted(t.take(p) + seq![(k, v)] + t.skip(q)),
{
    let r = t.take(p) + seq![(k, v)] + t.skip(q);
    assert forall|i: int, j: int| 0 <= i < j < r.len() implies bytes_lt(#[trigger] r[i].0, #[trigger] r[j].0) by {
        if j < p {
            assert(r[i] == t[i] && r[j] == t[j]);
        } else if j == p {
            assert(r[i] == t[i]);
        } else if i < p {
            assert(r[i] == t[i]);
            assert(r[j] == t[j - p - 1 + q]);
            lemma_bytes_lt_trans(t[i].0, k, t[j - p - 1 + q].0);
        } else if i == p {
            assert(r[j] == t[j - p - 1 + q]);
        } else {
            assert(r[i] == t[i - p - 1 + q]);
            assert(r[j] == t[j - p - 1 + q]);
        }
    }
}

impl BDict {
    #[verifier::type_invariant]
    closed spec fn sorted(self) -> bool {
        keys_sorted(entries_of(self.entries@))
    }

    /// An empty dictionary.
    pub fn new() -> (d: BDict)
        ensures
            dict_terms(d) == Seq::<(Seq<u8>, BTerm)>::empty(),
    {
        let d = BDict { entries: Vec::new() };
        assert(entries_of(d.entries@) =~= Seq::<(Seq<u8>, BTerm)>::empty());
        d
    }

    /// The number of entries.
    pub fn len(&self) -> (n: usize)
        ensures
            n == dict_terms(*self).len(),
    {
        proof {
            lemma_entries_of(self.entries@);
        }
        self.entries.len()
    }

    /// The key and value of the `i`-th entry in key order.
    pub fn entry(&self, i: usize) -> (r: (&Vec<u8>, &BValue))
        requires
            i < dict_terms(*self).len(),
        ensures
            (r.0@, term_of(*r.1)) == dict_terms(*self)[i as int],
    {
        proof {
            lemma_entries_of(self.entries@);
        }
        let e = &self.entries[i];
        (&e.0, &e.1)
    }

    /// The value stored under `key`.
    pub fn get(&self, key: &[u8]) -> (r: Option<&BValue>)
        ensures
            match r {
                Some(v) => dict_lookup(dict_terms(*self), key@) == Some(term_of(*v)),
                None => dict_lookup(dict_terms(*self), key@) is None,
            },
    {
        proof {
            lemma_entries_of(self.entries@);
        }
        let ghost t = dict_terms(*self);
        let n = self.entries.len();
        let mut i: usize = 0;
        assert(t.skip(0) =~= t);
        while i < n
            invariant
                0 <= i <= n,
                n == t.len(),
                t == entries_of(self.entries@),
                n == self.entries@.len(),
                forall|m: int| 0 <= m < n ==> #[trigger] t[m] == (self.entries@[m].0@, term_of(self.entries@[m].1)),
                dict_lookup(t, key@) == dict_lookup(t.skip(i as int), key@),
            decreases n - i,
        {
            assert(t.skip(i as int)[0] == t[i as int]);
            assert(t.skip(i as int).skip(1) =~= t.skip(i + 1));
            if bytes_equal(self.entries[i].0.as_slice(), key) {
                return Some(&self.entries[i].1);
            }
            i = i + 1;
        }
        None
    }

    /// Inserts `key -> value`, replacing the value of an existing equal key
    /// and keeping the keys in increasing order.
    pub fn insert(&mut self, key: Vec<u8>, value: BValue)
        ensures
            dict_terms(*final(self)) == dict_put(dict_terms(*old(self)), key@, term_of(value)),
    {
        proof {
            use_type_invariant(&*self);
            lemma_entries_of(self.entries@);
        }
        let ghost t = dict_terms(*self);
        let ghost kv = (key@, term_of(value));
        let n = self.entries.len();
        let mut p: usize = 0;
        while p < n
            invariant
                0 <= p <= n,
                n == t.len(),
                n == self.entries@.len(),
                forall|m: int| 0 <= m < n ==> #[trigger] t[m] == (self.entries@[m].0@, term_of(self.entries@[m].1)),
                forall|m: int| 0 <= m < p ==> bytes_lt(#[trigger] t[m].0, key@),
            ensures
                0 <= p <= n,
                forall|m: int| 0 <= m < p ==> bytes_lt(#[trigger] t[m].0, key@),
                p < n ==> !bytes_lt(t[p as int].0, key@),
            decreases n - p,
        {
            if !bytes_less(self.entries[p].0.as_slice(), key.as_slice()) {
                break;
            }
            p = p + 1;
        }
        let equal = p < n && bytes_equal(self.entries[p].0.as_slice(), key.as_slice());
        let ghost q: int = if equal { p + 1 } else { p as int };
        proof {
            assert forall|i: int| q <= i < n implies bytes_lt(key@, #[trigger] t[i].0) by {
                if !equal {
                    lemma_bytes_lt_total(t[p as int].0, key@);
                }
                if i > p {
                    lemma_bytes_lt_trans(key@, t[p as int].0, t[i].0);
                }
            }
            let below = t.take(p as int);
            let mid = t.subrange(p as int, q);
            let above = t.skip(q);
            assert(t =~= below + mid + above);
            lemma_all_below(below, key@);
            lemma_all_above(above, key@);
            if equal {
                assert(mid =~= seq![t[p as int]]);
                lemma_single_equal(t[p as int], key@);
            } else {
                assert(mid.len() == 0);
            }
            lemma_below_above_concat(below + mid, above, key@);
            lemma_below_above_concat(below, mid, key@);
            assert(dict_put(t, key@, kv.1) =~= below + seq![kv] + above);
            lemma_sorted_put(t, p as int, q, key@, kv.1);
        }
        let mut es: Vec<(Vec<u8>, BValue)> = Vec::new();
        std::mem::swap(&mut es, &mut self.entries);
        if equal {
            es.set(p, (key, value));
        } else {
            es.insert(p, (key, value));
        }
        proof {
            lemma_entries_of(es@);
            assert(entries_of(es@) =~= t.take(p as int) + seq![kv] + t.skip(q));
        }
        self.entries = es;
    }
}

// ----- encoding, executable -----

impl BValue {
    /// The bencode encoding of this value.
    pub fn encode(&self) -> (out: Vec<u8>)
        ensures
            out@ == enc(term_of(*self)),
            wf(term_of(*self)),
            representable(term_of(*self)),
            forall|rest: Seq<u8>| #[trigger] dec(out@ + rest) == Decoded::Done(term_of(*self), out@.len()),
    {
        let mut out = Vec::new();
        encode_into(self, &mut out);
        assert(out@ =~= enc(term_of(*self)));
        assert forall|rest: Seq<u8>| #[trigger] dec(out@ + rest) == Decoded::Done(term_of(*self), out@.len()) by {
            lemma_decode_encode(term_of(*self), rest);
        }
        out
    }
}

/// Appends the encoding of a byte string.
fn encode_bytes_into(b: &[u8], out: &mut Vec<u8>)
    ensures
        final(out)@ == old(out)@ + enc_bytes(b@),
{
    crate::decimal::push_digits(out, b.len() as u64);
    out.push(58u8);
    out.extend_from_slice(b);
    assert(final(out)@ =~= old(out)@ + enc_bytes(b@));
}

/// Appends the encoding of `val` to `out`.
fn encode_into(val: &BValue, out: &mut Vec<u8>)
    ensures
        final(out)@ == old(out)@ + enc(term_of(*val)),
        wf(term_of(*val)),
        representable(term_of(*val)),
    decreases val,
{
    match val {
        BValue::Int(n) => {
            out.push(105u8);
            crate::decimal::push_int_text(out, *n);
            out.push(101u8);
            assert(final(out)@ =~= old(out)@ + enc(term_of(*val)));
        },
        BValue::Bytes(b) => {
            let len = b.len();
            assert(len == b@.len());
            encode_bytes_into(b.as_slice(), out);
        },
        BValue::List(items) => {
            out.push(108u8);
            let n = items.len();
            let mut k: usize = 0;
            while k < n
                invariant
                    0 <= k <= n,
                    n == items@.len(),
                    *val == BValue::List(*items),
                    out@ == old(out)@ + seq![108u8] + enc_list(terms_of(items@.take(k as int))),
                    wf_list(terms_of(items@.take(k as int))),
                    representable_list(terms_of(items@.take(k as int))),
                decreases n - k,
            {
                let ghost before = out@;
                proof {
                    assert(decreases_to!(*val => val->List_0));
                    assert(decreases_to!(*items => items@));
                    assert(decreases_to!(items@ => items@[k as int]));
                }
                encode_into(&items[k], out);
                proof {
                    let tk = items@.take(k + 1);
                    assert(tk.drop_last() =~= items@.take(k as int));
                    assert(tk.last() == items@[k as int]);
                    assert(terms_of(tk).drop_last() =~= terms_of(items@.take(k as int)));
                    assert(enc_list(terms_of(tk)) == enc_list(terms_of(items@.take(k as int))) + enc(term_of(items@[k as int])));
                    assert(terms_of(tk).last() == term_of(items@[k as int]));
                    assert(wf_list(terms_of(tk)));
                    assert(representable_list(terms_of(tk)));
                }
                k = k + 1;
                assert(out@ =~= old(out)@ + seq![108u8] + enc_list(terms_of(items@.take(k as int))));
            }
            out.push(101u8);
            assert(items@.take(n as int) =~= items@);
            assert(final(out)@ =~= old(out)@ + enc(term_of(*val)));
        },
        BValue::Dict(d) => {
            proof {
                use_type_invariant(d);
            }
            out.push(100u8);
            let n = d.entries.len();
            let mut k: usize = 0;
            while k < n
                invariant
                    0 <= k <= n,
                    n == d.entries@.len(),
                    *val == BValue::Dict(*d),
                    out@ == old(out)@ + seq![100u8] + enc_entries(entries_of(d.entries@.take(k as int))),
                    wf_entries(entries_of(d.entries@.take(k as int))),
                    representable_entries(entries_of(d.entries@.take(k as int))),
                    keys_sorted(entries_of(d.entries@)),
                decreases n - k,
            {
                proof {
                    assert(decreases_to!(*val => val->Dict_0));
                    assert(decreases_to!(*d => d.entries));
                    assert(decreases_to!(d.entries => d.entries@));
                    assert(decreases_to!(d.entries@ => d.entries@[k as int]));
                    assert(decreases_to!(d.entries@[k as int] => d.entries@[k as int].1));
                }
                let key_len = d.entries[k].0.len();
                assert(key_len == d.entries@[k as int].0@.len());
                encode_bytes_into(d.entries[k].0.as_slice(), out);
                encode_into(&d.entries[k].1, out);
                proof {
                    let tk = d.entries@.take(k + 1);
                    assert(tk.drop_last() =~= d.entries@.take(k as int));
                    assert(tk.last() == d.entries@[k as int]);
                    assert(entries_of(tk).drop_last() =~= entries_of(d.entries@.take(k as int)));
                    assert(enc_entries(entries_of(tk)) == enc_entries(entries_of(d.entries@.take(k as int)))
                        + enc_bytes(d.entries@[k as int].0@) + enc(term_of(d.entries@[k as int].1)));
                    assert(entries_of(tk).last() == (d.entries@[k as int].0@, term_of(d.entries@[k as int].1)));
                    assert(wf_entries(entries_of(tk)));
                    assert(representable_entries(entries_of(tk)));
                }
                k = k + 1;
                assert(out@ =~= old(out)@ + seq![100u8] + enc_entries(entries_of(d.entries@.take(k as int))));
            }
            out.push(101u8);
            assert(d.entries@.take(n as int) =~= d.entries@);
            assert(final(out)@ =~= old(out)@ + enc(term_of(*val)));
        },
    }
}

} // verus!

verus! {

// ----- decoding -----

/// Why decoding failed.
#[derive(Clone, Copy, Debug, PartialEq, Eq)]
pub enum DecodeError {
    /// The input is empty.
    Empty,
    /// An integer has no terminating `e`.
    UnterminatedInt,
    /// The text of an integer is not a valid `i64`.
    InvalidInt,
    /// A byte string's length has no terminating `:`.
    NoColon,
    /// The text of a byte string's length is not a valid `usize`.
    InvalidLength,
    /// A value starts with a byte that starts no value.
    UnexpectedByte(u8),
}

/// What decoding yields: a value and how many bytes it took, an error, or
/// running past the end of the input (which the decoder does not survive).
pub enum Decoded {
    Done(BTerm, nat),
    Failed(DecodeError),
    Truncated,
}

/// The position of the first `b` in `d`.
pub open spec fn first_index(d: Seq<u8>, b: u8) -> Option<nat>
    decreases d.len(),
{
    if d.len() == 0 {
        None
    } else if d[0] == b {
        Some(0)
    } else {
        match first_index(d.skip(1), b) {
            Some(i) => Some(i + 1),
            None => None,
        }
    }
}

/// Decoding of the value at the start of `d`.
pub open spec fn dec(d: Seq<u8>) -> Decoded
    decreases d.len(), 2int, 0int,
{
    if d.len() == 0 {
        Decoded::Failed(DecodeError::Empty)
    } else if d[0] == 105u8 {
        match first_index(d, 101u8) {
            None => Decoded::Failed(DecodeError::UnterminatedInt),
            Some(end) => match crate::decimal::parse_i64(d.subrange(1, end as int)) {
                Some(n) => Decoded::Done(BTerm::Int(n as int), end + 1),
                None => Decoded::Failed(DecodeError::InvalidInt),
            },
        }
    } else if d[0] == 108u8 {
        dec_list(d, 1, Seq::empty())
    } else if d[0] == 100u8 {
        dec_dict(d, 1, Seq::empty())
    } else if crate::decimal::is_digit(d[0]) {
        match first_index(d, 58u8) {
            None => Decoded::Failed(DecodeError::NoColon),
            Some(c) => match crate::decimal::parse_usize(d.subrange(0, c as int)) {
                None => Decoded::Failed(DecodeError::InvalidLength),
                Some(len) => {
                    if c + 1 + len as nat > d.len() {
                        Decoded::Truncated
                    } else {
                        Decoded::Done(BTerm::Bytes(d.subrange(c + 1 as int, c + 1 + len as int)), (c + 1 + len) as nat)
                    }
                },
            },
        }
    } else {
        Decoded::Failed(DecodeError::UnexpectedByte(d[0]))
    }
}

/// Decoding of list items from position `idx` of `d`, `acc` holding those
/// decoded so far. A decoded item always takes at least one byte and no more
/// than remain; the bound on `c` says so.
pub open spec fn dec_list(d: Seq<u8>, idx: nat, acc: Seq<BTerm>) -> Decoded
    decreases d.len(), 1int, d.len() - idx when idx >= 1
{
    if idx >= d.len() {
        Decoded::Truncated
    } else if d[idx as int] == 101u8 {
        Decoded::Done(BTerm::List(acc), idx + 1)
    } else {
        match dec(d.skip(idx as int)) {
            Decoded::Done(v, c) => {
                if 1 <= c <= d.len() - idx {
                    dec_list(d, idx + c, acc.push(v))
                } else {
                    Decoded::Truncated
                }
            },
            Decoded::Failed(e) => Decoded::Failed(e),
            Decoded::Truncated => Decoded::Truncated,
        }
    }
}

/// Decoding of dictionary entries from position `idx` of `d`. An entry whose
/// key is not a byte string is dropped; a repeated key replaces the earlier value.
pub open spec fn dec_dict(d: Seq<u8>, idx: nat, acc: Seq<(Seq<u8>, BTerm)>) -> Decoded
    decreases d.len(), 1int, d.len() - idx when idx >= 1
{
    if idx >= d.len() {
        Decoded::Truncated
    } else if d[idx as int] == 101u8 {
        Decoded::Done(BTerm::Dict(acc), idx + 1)
    } else {
        match dec(d.skip(idx as int)) {
            Decoded::Done(key, kc) => {
                if 1 <= kc <= d.len() - idx {
                    let j = idx + kc;
                    match dec(d.skip(j as int)) {
                        Decoded::Done(val, vc) => {
                            if 1 <= vc <= d.len() - j {
                                let acc2 = match key {
                                    BTerm::Bytes(k) => dict_put(acc, k, val),
                                    _ => acc,
                                };
                                dec_dict(d, j + vc, acc2)
                            } else {
                                Decoded::Truncated
                            }
                        },
                        Decoded::Failed(e) => Decoded::Failed(e),
                        Decoded::Truncated => Decoded::Truncated,
                    }
                } else {
                    Decoded::Truncated
                }
            },
            Decoded::Failed(e) => Decoded::Failed(e),
            Decoded::Truncated => Decoded::Truncated,
        }
    }
}

} // verus!

verus! {

/// `first_index` finds the first occurrence.
pub proof fn lemma_first_index(d: Seq<u8>, b: u8)
    ensures
        match first_index(d, b) {
            Some(m) => m < d.len() && d[m as int] == b && forall|i: int| 0 <= i < m ==> d[i] != b,
            None => forall|i: int| 0 <= i < d.len() ==> d[i] != b,
        },
    decreases d.len(),
{
    if d.len() > 0 && d[0] != b {
        lemma_first_index(d.skip(1), b);
        match first_index(d.skip(1), b) {
            Some(m) => {
                assert forall|i: int| 0 <= i < m + 1 implies d[i] != b by {
                    if i > 0 {
                        assert(d[i] == d.skip(1)[i - 1]);
                    }
                }
            },
            None => {
                assert forall|i: int| 0 <= i < d.len() implies d[i] != b by {
                    if i > 0 {
                        assert(d[i] == d.skip(1)[i - 1]);
                    }
                }
            },
        }
    }
}

/// A position holding `b` with no `b` before it is the first index of `b`.
pub proof fn lemma_first_index_at(d: Seq<u8>, b: u8, m: nat)
    requires
        m < d.len(),
        d[m as int] == b,
        forall|i: int| 0 <= i < m ==> d[i] != b,
    ensures
        first_index(d, b) == Some(m),
{
    lemma_first_index(d, b);
}

/// A list's items, decoded from position `idx` on, end within the input.
pub proof fn lemma_dec_list_bounds(d: Seq<u8>, idx: nat, acc: Seq<BTerm>)
    requires
        idx >= 1,
    ensures
        dec_list(d, idx, acc) matches Decoded::Done(_, c) ==> idx < c <= d.len(),
    decreases d.len() - idx,
{
    if idx < d.len() && d[idx as int] != 101u8 {
        if let Decoded::Done(v, c) = dec(d.skip(idx as int)) {
            if 1 <= c <= d.len() - idx {
                lemma_dec_list_bounds(d, idx + c, acc.push(v));
            }
        }
    }
}

/// A dictionary's entries, decoded from position `idx` on, end within the input.
pub proof fn lemma_dec_dict_bounds(d: Seq<u8>, idx: nat, acc: Seq<(Seq<u8>, BTerm)>)
    requires
        idx >= 1,
    ensures
        dec_dict(d, idx, acc) matches Decoded::Done(_, c) ==> idx < c <= d.len(),
    decreases d.len() - idx,
{
    if idx < d.len() && d[idx as int] != 101u8 {
        if let Decoded::Done(key, kc) = dec(d.skip(idx as int)) {
            if 1 <= kc <= d.len() - idx {
                let j = idx + kc;
                if let Decoded::Done(val, vc) = dec(d.skip(j as int)) {
                    if 1 <= vc <= d.len() - j {
                        let acc2 = match key {
                            BTerm::Bytes(k) => dict_put(acc, k, val),
                            _ => acc,
                        };
                        lemma_dec_dict_bounds(d, j + vc, acc2);
                    }
                }
            }
        }
    }
}

/// A decoded value takes at least one byte and no more than there are.
pub proof fn lemma_dec_bounds(d: Seq<u8>)
    ensures
        dec(d) matches Decoded::Done(_, c) ==> 1 <= c <= d.len(),
{
    if d.len() > 0 {
        lemma_first_index(d, 101u8);
        lemma_dec_list_bounds(d, 1, Seq::empty());
        lemma_dec_dict_bounds(d, 1, Seq::empty());
    }
}

/// Where two inputs agree on the bytes before `n`, the first `b` before `n`
/// is found at the same place.
proof fn lemma_first_index_agree(d: Seq<u8>, e: Seq<u8>, b: u8, n: nat)
    requires
        first_index(d, b) matches Some(m) && m < n,
        n <= d.len(),
        n <= e.len(),
        forall|i: int| 0 <= i < n ==> e[i] == d[i],
    ensures
        first_index(e, b) == first_index(d, b),
{
    lemma_first_index(d, b);
    let m = first_index(d, b)->0;
    lemma_first_index_at(e, b, m);
}

/// Decoding reads only the bytes of the value it decodes: an input that
/// agrees with `d` on them decodes the same.
proof fn lemma_dec_agree(d: Seq<u8>, e: Seq<u8>)
    requires
        dec(d) matches Decoded::Done(_, n) && n <= e.len() && forall|i: int| 0 <= i < n ==> e[i] == d[i],
    ensures
        dec(e) == dec(d),
    decreases d.len(), 2int, 0int,
{
    let n = dec(d)->Done_1;
    lemma_dec_bounds(d);
    assert(e[0] == d[0]);
    if d[0] == 105u8 {
        lemma_first_index_agree(d, e, 101u8, n);
        let end = first_index(d, 101u8)->0;
        assert(e.subrange(1, end as int) =~= d.subrange(1, end as int));
    } else if d[0] == 108u8 {
        lemma_dec_list_agree(d, e, 1, Seq::empty());
    } else if d[0] == 100u8 {
        lemma_dec_dict_agree(d, e, 1, Seq::empty());
    } else {
        lemma_first_index_agree(d, e, 58u8, n);
        let c = first_index(d, 58u8)->0;
        assert(e.subrange(0, c as int) =~= d.subrange(0, c as int));
        let len = crate::decimal::parse_usize(d.subrange(0, c as int))->0;
        assert(e.subrange(c + 1 as int, c + 1 + len as int) =~= d.subrange(c + 1 as int, c + 1 + len as int));
    }
}

proof fn lemma_dec_list_agree(d: Seq<u8>, e: Seq<u8>, idx: nat, acc: Seq<BTerm>)
    requires
        idx >= 1,
        dec_list(d, idx, acc) matches Decoded::Done(_, n) && n <= e.len() && forall|i: int| 0 <= i < n ==> e[i] == d[i],
    ensures
        dec_list(e, idx, acc) == dec_list(d, idx, acc),
    decreases d.len(), 1int, d.len() - idx,
{
    let n = dec_list(d, idx, acc)->Done_1;
    lemma_dec_list_bounds(d, idx, acc);
    assert(e[idx as int] == d[idx as int]);
    if d[idx as int] != 101u8 {
        let ds = d.skip(idx as int);
        let es = e.skip(idx as int);
        let v = dec(ds)->Done_0;
        let c = dec(ds)->Done_1;
        lemma_dec_list_bounds(d, idx + c, acc.push(v));
        assert forall|i: int| 0 <= i < c implies es[i] == ds[i] by {
            assert(es[i] == e[idx + i] && ds[i] == d[idx + i]);
        }
        lemma_dec_agree(ds, es);
        lemma_dec_list_agree(d, e, idx + c, acc.push(v));
    }
}

proof fn lemma_dec_dict_agree(d: Seq<u8>, e: Seq<u8>, idx: nat, acc: Seq<(Seq<u8>, BTerm)>)
    requires
        idx >= 1,
        dec_dict(d, idx, acc) matches Decoded::Done(_, n) && n <= e.len() && forall|i: int| 0 <= i < n ==> e[i] == d[i],
    ensures
        dec_dict(e, idx, acc) == dec_dict(d, idx, acc),
    decreases d.len(), 1int, d.len() - idx,
{
    let n = dec_dict(d, idx, acc)->Done_1;
    lemma_dec_dict_bounds(d, idx, acc);
    assert(e[idx as int] == d[idx as int]);
    if d[idx as int] != 101u8 {
        let ds = d.skip(idx as int);
        let es = e.skip(idx as int);
        let key = dec(ds)->Done_0;
        let kc = dec(ds)->Done_1;
        let j = idx + kc;
        let dj = d.skip(j as int);
        let ej = e.skip(j as int);
        let val = dec(dj)->Done_0;
        let vc = dec(dj)->Done_1;
        let acc2 = match key {
            BTerm::Bytes(k) => dict_put(acc, k, val),
            _ => acc,
        };
        lemma_dec_dict_bounds(d, j + vc, acc2);
        assert forall|i: int| 0 <= i < kc implies es[i] == ds[i] by {
            assert(es[i] == e[idx + i] && ds[i] == d[idx + i]);
        }
        lemma_dec_agree(ds, es);
        assert forall|i: int| 0 <= i < vc implies ej[i] == dj[i] by {
            assert(ej[i] == e[j + i] && dj[i] == d[j + i]);
        }
        lemma_dec_agree(dj, ej);
        lemma_dec_dict_agree(d, e, j + vc, acc2);
    }
}

/// A decoded value depends only on the bytes it took: decoding just those
/// bytes gives the same value and length.
pub proof fn lemma_decode_prefix(d: Seq<u8>)
    ensures
        dec(d) matches Decoded::Done(_, n) ==> dec(d.take(n as int)) == dec(d),
{
    if let Decoded::Done(_, n) = dec(d) {
        lemma_dec_bounds(d);
        lemma_dec_agree(d, d.take(n as int));
    }
}

/// The executable result of decoding.
pub enum DecodeOutcome {
    Done(BValue, usize),
    Failed(DecodeError),
    Truncated,
}

pub open spec fn outcome_view(o: DecodeOutcome) -> Decoded {
    match o {
        DecodeOutcome::Done(v, n) => Decoded::Done(term_of(v), n as nat),
        DecodeOutcome::Failed(e) => Decoded::Failed(e),
        DecodeOutcome::Truncated => Decoded::Truncated,
    }
}

/// The position of the first `b` in `d`.
pub(crate) fn find_byte(d: &[u8], b: u8) -> (r: Option<usize>)
    ensures
        match r {
            Some(i) => first_index(d@, b) == Some(i as nat),
            None => first_index(d@, b) is None,
        },
{
    let mut i: usize = 0;
    while i < d.len()
        invariant
            0 <= i <= d@.len(),
            forall|m: int| 0 <= m < i ==> d@[m] != b,
        decreases d@.len() - i,
    {
        if d[i] == b {
            proof {
                lemma_first_index_at(d@, b, i as nat);
            }
            return Some(i);
        }
        i = i + 1;
    }
    proof {
        lemma_first_index(d@, b);
    }
    None
}

/// Decodes the value at the start of `data`, reporting running past the end
/// of the input as `Truncated`.
pub fn decode_outcome(data: &[u8]) -> (r: DecodeOutcome)
    ensures
        outcome_view(r) == dec(data@),
    decreases data@.len(), 1int,
{
    if data.len() == 0 {
        return DecodeOutcome::Failed(DecodeError::Empty);
    }
    let first = data[0];
    if first == 105u8 {
        match find_byte(data, 101u8) {
            None => DecodeOutcome::Failed(DecodeError::UnterminatedInt),
            Some(end) => {
                proof {
                    lemma_first_index(data@, 101u8);
                }
                let body = vstd::slice::slice_subrange(data, 1, end);
                match crate::decimal::parse_i64_bytes(body) {
                    Some(n) => DecodeOutcome::Done(BValue::Int(n), end + 1),
                    None => DecodeOutcome::Failed(DecodeError::InvalidInt),
                }
            },
        }
    } else if first == 108u8 {
        decode_list(data)
    } else if first == 100u8 {
        decode_dict(data)
    } else if 48u8 <= first && first <= 57u8 {
        match find_byte(data, 58u8) {
            None => DecodeOutcome::Failed(DecodeError::NoColon),
            Some(colon) => {
                proof {
                    lemma_first_index(data@, 58u8);
                }
                let len_text = vstd::slice::slice_subrange(data, 0, colon);
                match crate::decimal::parse_usize_bytes(len_text) {
                    None => DecodeOutcome::Failed(DecodeError::InvalidLength),
                    Some(len) => {
                        let start = colon + 1;
                        if len > data.len() - start {
                            DecodeOutcome::Truncated
                        } else {
                            let end = start + len;
                            let bytes = vstd::slice::slice_subrange(data, start, end);
                            DecodeOutcome::Done(BValue::Bytes(vstd::slice::slice_to_vec(bytes)), end)
                        }
                    },
                }
            },
        }
    } else {
        DecodeOutcome::Failed(DecodeError::UnexpectedByte(first))
    }
}

fn decode_list(data: &[u8]) -> (r: DecodeOutcome)
    requires
        data@.len() >= 1,
        data@[0] == 108u8,
    ensures
        outcome_view(r) == dec_list(data@, 1, Seq::empty()),
    decreases data@.len(), 0int,
{
    let mut items: Vec<BValue> = Vec::new();
    let mut idx: usize = 1;
    assert(terms_of(items@) =~= Seq::<BTerm>::empty());
    loop
        invariant
            1 <= idx,
            data@.len() >= 1,
            dec_list(data@, 1, Seq::empty()) == dec_list(data@, idx as nat, terms_of(items@)),
        decreases data@.len() - idx,
    {
        if idx >= data.len() {
            return DecodeOutcome::Truncated;
        }
        if data[idx] == 101u8 {
            return DecodeOutcome::Done(BValue::List(items), idx + 1);
        }
        let rest = vstd::slice::slice_subrange(data, idx, data.len());
        assert(rest@ =~= data@.skip(idx as int));
        match decode_outcome(rest) {
            DecodeOutcome::Done(v, c) => {
                proof {
                    lemma_dec_bounds(rest@);
                }
                let ghost before = items@;
                items.push(v);
                proof {
                    assert(items@.drop_last() =~= before);
                    assert(terms_of(items@) == terms_of(before).push(term_of(v)));
                }
                idx = idx + c;
            },
            DecodeOutcome::Failed(e) => {
                return DecodeOutcome::Failed(e);
            },
            DecodeOutcome::Truncated => {
                return DecodeOutcome::Truncated;
            },
        }
    }
}

fn decode_dict(data: &[u8]) -> (r: DecodeOutcome)
    requires
        data@.len() >= 1,
        data@[0] == 100u8,
    ensures
        outcome_view(r) == dec_dict(data@, 1, Seq::empty()),
    decreases data@.len(), 0int,
{
    let mut dict = BDict::new();
    let mut idx: usize = 1;
    loop
        invariant
            1 <= idx,
            data@.len() >= 1,
            dec_dict(data@, 1, Seq::empty()) == dec_dict(data@, idx as nat, dict_terms(dict)),
        decreases data@.len() - idx,
    {
        if idx >= data.len() {
            return DecodeOutcome::Truncated;
        }
        if data[idx] == 101u8 {
            return DecodeOutcome::Done(BValue::Dict(dict), idx + 1);
        }
        let rest = vstd::slice::slice_subrange(data, idx, data.len());
        assert(rest@ =~= data@.skip(idx as int));
        match decode_outcome(rest) {
            DecodeOutcome::Done(key, kc) => {
                proof {
                    lemma_dec_bounds(rest@);
                }
                let j = idx + kc;
                let rest2 = vstd::slice::slice_subrange(data, j, data.len());
                assert(rest2@ =~= data@.skip(j as int));
                match decode_outcome(rest2) {
                    DecodeOutcome::Done(val, vc) => {
                        proof {
                            lemma_dec_bounds(rest2@);
                        }
                        match key {
                            BValue::Bytes(k) => {
                                dict.insert(k, val);
                            },
                            _ => {},
                        }
                        idx = j + vc;
                    },
                    DecodeOutcome::Failed(e) => {
                        return DecodeOutcome::Failed(e);
                    },
                    DecodeOutcome::Truncated => {
                        return DecodeOutcome::Truncated;
                    },
                }
            },
            DecodeOutcome::Failed(e) => {
                return DecodeOutcome::Failed(e);
            },
            DecodeOutcome::Truncated => {
                return DecodeOutcome::Truncated;
            },
        }
    }
}

/// Minimal decoder for .torrent files: the value at the start of `data` and
/// the number of bytes it takes. Input that ends inside a list, a dictionary
/// or a byte string is outside the domain (see `decode_outcome`).
pub fn decode(data: &[u8]) -> (r: Result<(BValue, usize), DecodeError>)
    requires
        !(dec(data@) is Truncated),
    ensures
        match r {
            Ok((v, n)) => dec(data@) == Decoded::Done(term_of(v), n as nat),
            Err(e) => dec(data@) == Decoded::Failed(e),
        },
{
    match decode_outcome(data) {
        DecodeOutcome::Done(v, n) => Ok((v, n)),
        DecodeOutcome::Failed(e) => Err(e),
        DecodeOutcome::Truncated => {
            assert(false);
            Err(DecodeError::Empty)
        },
    }
}

} // verus!

verus! {

/// The value stored under `key` in a dictionary.
pub fn dict_get<'a>(d: &'a BDict, key: &str) -> (r: Option<&'a BValue>)
    ensures
        match r {
            Some(v) => dict_lookup(dict_terms(*d), key.spec_bytes()) == Some(term_of(*v)),
            None => dict_lookup(dict_terms(*d), key.spec_bytes()) is None,
        },
{
    d.get(key.as_bytes())
}

/// The integer, if the value is one.
pub fn as_int(v: &BValue) -> (r: Option<i64>)
    ensures
        r == (match *v {
            BValue::Int(n) => Some(n),
            _ => None,
        }),
{
    match v {
        BValue::Int(n) => Some(*n),
        _ => None,
    }
}

/// The bytes, if the value is a byte string.
pub fn as_bytes(v: &BValue) -> (r: Option<&[u8]>)
    ensures
        match r {
            Some(b) => term_of(*v) == BTerm::Bytes(b@),
            None => !(*v is Bytes),
        },
{
    match v {
        BValue::Bytes(b) => Some(b.as_slice()),
        _ => None,
    }
}

/// The dictionary, if the value is one.
pub fn as_dict(v: &BValue) -> (r: Option<&BDict>)
    ensures
        match r {
            Some(d) => *v == BValue::Dict(*d),
            None => !(*v is Dict),
        },
{
    match v {
        BValue::Dict(d) => Some(d),
        _ => None,
    }
}

} // verus!

verus! {

// ----- decoding an encoding gives the value back -----

/// Every integer fits `i64` and every byte string's length fits `usize`, as
/// in any value built from `BValue`.
pub open spec fn representable(t: BTerm) -> bool
    decreases t,
{
    match t {
        BTerm::Int(n) => i64::MIN <= n <= i64::MAX,
        BTerm::Bytes(b) => b.len() <= usize::MAX,
        BTerm::List(items) => representable_list(items),
        BTerm::Dict(es) => representable_entries(es),
    }
}

pub open spec fn representable_list(s: Seq<BTerm>) -> bool
    decreases s,
{
    if s.len() == 0 {
        true
    } else {
        representable_list(s.drop_last()) && representable(s.last())
    }
}

pub open spec fn representable_entries(s: Seq<(Seq<u8>, BTerm)>) -> bool
    decreases s,
{
    if s.len() == 0 {
        true
    } else {
        representable_entries(s.drop_last()) && s.last().0.len() <= usize::MAX && representable(s.last().1)
    }
}

proof fn lemma_list_props(s: Seq<BTerm>)
    ensures
        wf_list(s) ==> forall|k: int| 0 <= k < s.len() ==> wf(#[trigger] s[k]),
        representable_list(s) ==> forall|k: int| 0 <= k < s.len() ==> representable(#[trigger] s[k]),
    decreases s.len(),
{
    if s.len() > 0 {
        lemma_list_props(s.drop_last());
        assert forall|k: int| 0 <= k < s.len() && wf_list(s) implies wf(#[trigger] s[k]) by {
            if k < s.len() - 1 {
                assert(s[k] == s.drop_last()[k]);
            }
        }
        assert forall|k: int| 0 <= k < s.len() && representable_list(s) implies representable(#[trigger] s[k]) by {
            if k < s.len() - 1 {
                assert(s[k] == s.drop_last()[k]);
            }
        }
    }
}

proof fn lemma_entries_props(s: Seq<(Seq<u8>, BTerm)>)
    ensures
        wf_entries(s) ==> forall|k: int| 0 <= k < s.len() ==> wf(#[trigger] s[k].1),
        representable_entries(s) ==> forall|k: int| 0 <= k < s.len() ==> (#[trigger] s[k].0).len() <= usize::MAX && representable(s[k].1),
    decreases s.len(),
{
    if s.len() > 0 {
        lemma_entries_props(s.drop_last());
        assert forall|k: int| 0 <= k < s.len() && wf_entries(s) implies wf(#[trigger] s[k].1) by {
            if k < s.len() - 1 {
                assert(s[k] == s.drop_last()[k]);
            }
        }
        assert forall|k: int| 0 <= k < s.len() && representable_entries(s)
            implies (#[trigger] s[k].0).len() <= usize::MAX && representable(s[k].1) by {
            if k < s.len() - 1 {
                assert(s[k] == s.drop_last()[k]);
            }
        }
    }
}

proof fn lemma_enc_list_concat(a: Seq<BTerm>, b: Seq<BTerm>)
    ensures
        enc_list(a + b) == enc_list(a) + enc_list(b),
    decreases b.len(),
{
    if b.len() == 0 {
        assert(a + b =~= a);
        assert(enc_list(a) + enc_list(b) =~= enc_list(a));
    } else {
        lemma_enc_list_concat(a, b.drop_last());
        assert((a + b).drop_last() =~= a + b.drop_last());
        assert(enc_list(a + b) =~= enc_list(a) + enc_list(b));
    }
}

proof fn lemma_enc_entries_concat(a: Seq<(Seq<u8>, BTerm)>, b: Seq<(Seq<u8>, BTerm)>)
    ensures
        enc_entries(a + b) == enc_entries(a) + enc_entries(b),
    decreases b.len(),
{
    if b.len() == 0 {
        assert(a + b =~= a);
        assert(enc_entries(a) + enc_entries(b) =~= enc_entries(a));
    } else {
        lemma_enc_entries_concat(a, b.drop_last());
        assert((a + b).drop_last() =~= a + b.drop_last());
        assert(enc_entries(a + b) =~= enc_entries(a) + enc_entries(b));
    }
}

proof fn lemma_enc_list_single(x: BTerm)
    ensures
        enc_list(seq![x]) == enc(x),
{
    let s = seq![x];
    assert(s.drop_last() =~= Seq::<BTerm>::empty());
    assert(s.last() == x);
    assert(enc_list(s.drop_last()) == Seq::<u8>::empty());
    assert(enc_list(s) =~= enc(x));
}

proof fn lemma_enc_entries_single(e: (Seq<u8>, BTerm))
    ensures
        enc_entries(seq![e]) == enc_bytes(e.0) + enc(e.1),
{
    let s = seq![e];
    assert(s.drop_last() =~= Seq::<(Seq<u8>, BTerm)>::empty());
    assert(s.last() == e);
    assert(enc_entries(s.drop_last()) == Seq::<u8>::empty());
    assert(enc_entries(s) =~= enc_bytes(e.0) + enc(e.1));
}

/// An encoding is never empty and never starts with `e`.
proof fn lemma_enc_first(t: BTerm)
    ensures
        enc(t).len() >= 1,
        enc(t)[0] != 101u8,
{
    match t {
        BTerm::Bytes(b) => {
            crate::decimal::lemma_digits_of(b.len());
            assert(enc(t)[0] == crate::decimal::digits_of(b.len())[0]);
        },
        _ => {},
    }
}

/// Decoding an integer's encoding, whatever follows it.
proof fn lemma_dec_int(n: int, rest: Seq<u8>)
    requires
        i64::MIN <= n <= i64::MAX,
    ensures
        dec(enc(BTerm::Int(n)) + rest) == Decoded::Done(BTerm::Int(n), enc(BTerm::Int(n)).len()),
{
    let txt = crate::decimal::int_text(n);
    let d = enc(BTerm::Int(n)) + rest;
    crate::decimal::lemma_parse_int_text(n);
    let end = txt.len() + 1;
    assert forall|i: int| 0 <= i < end implies d[i] != 101u8 by {
        if i > 0 {
            assert(d[i] == txt[i - 1]);
        }
    }
    lemma_first_index_at(d, 101u8, end as nat);
    assert(d.subrange(1, end as int) =~= txt);
}

/// Decoding a byte string's encoding, whatever follows it.
proof fn lemma_dec_bytes(b: Seq<u8>, rest: Seq<u8>)
    requires
        b.len() <= usize::MAX,
    ensures
        dec(enc_bytes(b) + rest) == Decoded::Done(BTerm::Bytes(b), enc_bytes(b).len()),
{
    let ds = crate::decimal::digits_of(b.len());
    let d = enc_bytes(b) + rest;
    crate::decimal::lemma_parse_digits(b.len());
    assert forall|i: int| 0 <= i < ds.len() implies d[i] != 58u8 by {
        assert(d[i] == ds[i]);
        assert(crate::decimal::is_digit(ds[i]));
    }
    lemma_first_index_at(d, 58u8, ds.len());
    assert(d.subrange(0, ds.len() as int) =~= ds);
    assert(d[0] == ds[0]);
    assert(crate::decimal::is_digit(ds[0]));
    assert(d.subrange(ds.len() + 1 as int, ds.len() + 1 + b.len() as int) =~= b);
}

/// Decoding the items of an encoded list from the `k`-th on.
proof fn lemma_dec_list_enc(items: Seq<BTerm>, k: nat, rest: Seq<u8>)
    requires
        wf_list(items),
        representable_list(items),
        k <= items.len(),
    ensures
        dec_list(
            seq![108u8] + enc_list(items) + seq![101u8] + rest,
            1 + enc_list(items.take(k as int)).len(),
            items.take(k as int),
        ) == Decoded::Done(BTerm::List(items), enc(BTerm::List(items)).len()),
    decreases items, items.len() - k,
{
    let d = seq![108u8] + enc_list(items) + seq![101u8] + rest;
    let idx: nat = 1 + enc_list(items.take(k as int)).len();
    lemma_list_props(items);
    lemma_enc_list_concat(items.take(k as int), items.skip(k as int));
    assert(items =~= items.take(k as int) + items.skip(k as int));
    if k == items.len() {
        assert(items.skip(k as int) =~= Seq::<BTerm>::empty());
        assert(d[idx as int] == 101u8);
        assert(items.take(k as int) =~= items);
    } else {
        let x = items[k as int];
        let tail = items.skip(k as int + 1);
        assert(items.skip(k as int) =~= seq![x] + tail);
        lemma_enc_list_concat(seq![x], tail);
        lemma_enc_list_single(x);
        let after = enc_list(tail) + seq![101u8] + rest;
        assert(d.skip(idx as int) =~= enc(x) + after);
        lemma_enc_first(x);
        assert(d[idx as int] == enc(x)[0]);
        assert(decreases_to!(items => items[k as int]));
        lemma_decode_encode(x, after);
        let c = enc(x).len();
        assert(items.take(k as int + 1) =~= items.take(k as int).push(x));
        assert(items.take(k as int + 1).drop_last() =~= items.take(k as int));
        assert(enc_list(items.take(k as int + 1)) == enc_list(items.take(k as int)) + enc(x));
        lemma_dec_list_enc(items, k + 1, rest);
    }
}

/// Decoding the entries of an encoded dictionary from the `k`-th on.
#[verifier::rlimit(50)]
proof fn lemma_dec_dict_enc(es: Seq<(Seq<u8>, BTerm)>, k: nat, rest: Seq<u8>)
    requires
        keys_sorted(es),
        wf_entries(es),
        representable_entries(es),
        k <= es.len(),
    ensures
        dec_dict(
            seq![100u8] + enc_entries(es) + seq![101u8] + rest,
            1 + enc_entries(es.take(k as int)).len(),
            es.take(k as int),
        ) == Decoded::Done(BTerm::Dict(es), enc(BTerm::Dict(es)).len()),
    decreases es, es.len() - k,
{
    let d = seq![100u8] + enc_entries(es) + seq![101u8] + rest;
    let idx: nat = 1 + enc_entries(es.take(k as int)).len();
    lemma_entries_props(es);
    lemma_enc_entries_concat(es.take(k as int), es.skip(k as int));
    assert(es =~= es.take(k as int) + es.skip(k as int));
    if k == es.len() {
        assert(es.skip(k as int) =~= Seq::<(Seq<u8>, BTerm)>::empty());
        assert(d[idx as int] == 101u8);
        assert(es.take(k as int) =~= es);
    } else {
        let e = es[k as int];
        let tail = es.skip(k as int + 1);
        assert(es.skip(k as int) =~= seq![e] + tail);
        lemma_enc_entries_concat(seq![e], tail);
        lemma_enc_entries_single(e);
        let after_val = enc_entries(tail) + seq![101u8] + rest;
        let after_key = enc(e.1) + after_val;
        assert(d.skip(idx as int) =~= enc_bytes(e.0) + after_key);
        lemma_enc_first(BTerm::Bytes(e.0));
        assert(d[idx as int] == enc_bytes(e.0)[0]);
        lemma_dec_bytes(e.0, after_key);
        let kc = enc_bytes(e.0).len();
        let j = idx + kc;
        assert(d.skip(j as int) =~= enc(e.1) + after_val);
        assert(decreases_to!(es => es[k as int]));
        assert(decreases_to!(es[k as int] => es[k as int].1));
        lemma_decode_encode(e.1, after_val);
        assert forall|i: int| 0 <= i < es.take(k as int).len() implies bytes_lt(#[trigger] es.take(k as int)[i].0, e.0) by {
            assert(es.take(k as int)[i] == es[i]);
        }
        lemma_put_at_end(es.take(k as int), e.0, e.1);
        assert(es.take(k as int + 1) =~= es.take(k as int).push(e));
        assert(es.take(k as int + 1).drop_last() =~= es.take(k as int));
        assert(enc_entries(es.take(k as int + 1)) == enc_entries(es.take(k as int)) + enc_bytes(e.0) + enc(e.1));
        lemma_dec_dict_enc(es, k + 1, rest);
    }
}

/// Decoding the encoding of a well-formed value gives the value back and
/// takes exactly the encoding's bytes, whatever follows them.
pub proof fn lemma_decode_encode(t: BTerm, rest: Seq<u8>)
    requires
        wf(t),
        representable(t),
    ensures
        dec(enc(t) + rest) == Decoded::Done(t, enc(t).len()),
    decreases t, 0int,
{
    match t {
        BTerm::Int(n) => {
            lemma_dec_int(n, rest);
        },
        BTerm::Bytes(b) => {
            lemma_dec_bytes(b, rest);
        },
        BTerm::List(items) => {
            lemma_dec_list_enc(items, 0, rest);
            assert(items.take(0) =~= Seq::<BTerm>::empty());
            assert(enc(t) + rest =~= seq![108u8] + enc_list(items) + seq![101u8] + rest);
        },
        BTerm::Dict(es) => {
            lemma_dec_dict_enc(es, 0, rest);
            assert(es.take(0) =~= Seq::<(Seq<u8>, BTerm)>::empty());
            assert(enc(t) + rest =~= seq![100u8] + enc_entries(es) + seq![101u8] + rest);
        },
    }
}

} // verus!
