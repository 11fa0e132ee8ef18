//! RC4 stream cipher.
//!
//! RC4 is a simple and fast stream cipher. While it has known weaknesses
//! for general cryptographic use, MSE/PE uses it with the first 1024 bytes
//! of keystream discarded, which mitigates the main known attacks.
//!
//! The cipher is specified by a mathematical model (`Rc4View`): the key
//! schedule, the one-byte generator step and the keystream that a run of
//! steps produces. Every executable operation is proved against it.
use vstd::prelude::*;

verus! {

/// The abstract cipher state: the 256-byte permutation and the two indices.
pub struct Rc4View {
    pub state: Seq<u8>,
    pub i: u8,
    pub j: u8,
}

/// Adds two bytes modulo 256.
pub open spec fn add8(a: u8, b: u8) -> u8 {
    ((a as int + b as int) % 256) as u8
}

/// Exchanges the entries at positions `a` and `b`.
pub open spec fn seq_swap(s: Seq<u8>, a: int, b: int) -> Seq<u8> {
    s.update(a, s[b]).update(b, s[a])
}

/// The identity permutation 0, 1, ..., 255.
pub open spec fn identity_state() -> Seq<u8> {
    Seq::new(256, |k: int| k as u8)
}

/// The key-scheduling algorithm after its first `k` rounds: (permutation, j).
pub open spec fn ksa(key: Seq<u8>, k: nat) -> (Seq<u8>, u8)
    decreases k,
{
    if k == 0 {
        (identity_state(), 0u8)
    } else {
        let prev = ksa(key, (k - 1) as nat);
        let i = k - 1;
        let j = add8(add8(prev.1, prev.0[i]), key[i % key.len() as int]);
        (seq_swap(prev.0, i, j as int), j)
    }
}

/// The state of a cipher freshly keyed with `key`.
pub open spec fn initial_view(key: Seq<u8>) -> Rc4View {
    Rc4View { state: ksa(key, 256).0, i: 0, j: 0 }
}

/// One step of the pseudo-random generation algorithm: (next state, output byte).
pub open spec fn step(st: Rc4View) -> (Rc4View, u8) {
    let i = add8(st.i, 1);
    let j = add8(st.j, st.state[i as int]);
    let s = seq_swap(st.state, i as int, j as int);
    let idx = add8(s[i as int], s[j as int]);
    (Rc4View { state: s, i, j }, s[idx as int])
}

/// The state after `n` generator steps.
pub open spec fn advance(st: Rc4View, n: nat) -> Rc4View
    decreases n,
{
    if n == 0 {
        st
    } else {
        advance(step(st).0, (n - 1) as nat)
    }
}

/// The first `n` keystream bytes produced from state `st`.
pub open spec fn keystream(st: Rc4View, n: nat) -> Seq<u8>
    decreases n,
{
    if n == 0 {
        Seq::empty()
    } else {
        seq![step(st).1] + keystream(step(st).0, (n - 1) as nat)
    }
}

/// `data` combined byte by byte, with exclusive or, with `ks`.
pub open spec fn xor_seq(data: Seq<u8>, ks: Seq<u8>) -> Seq<u8> {
    Seq::new(data.len(), |k: int| data[k] ^ ks[k])
}

/// What encrypting (or, equally, decrypting) `data` from state `st` yields.
pub open spec fn apply_keystream(st: Rc4View, data: Seq<u8>) -> Seq<u8> {
    xor_seq(data, keystream(st, data.len()))
}

/// RC4 cipher state.
#[derive(Clone, Copy)]
pub struct Rc4 {
    state: [u8; 256],
    i: u8,
    j: u8,
}

impl View for Rc4 {
    type V = Rc4View;

    closed spec fn view(&self) -> Rc4View {
        Rc4View { state: self.state@, i: self.i, j: self.j }
    }
}

/// Two steps of the recursion of `keystream` and `advance` read from the end.
pub proof fn lemma_advance_snoc(st: Rc4View, n: nat)
    ensures
        advance(st, n + 1) == step(advance(st, n)).0,
        keystream(st, n + 1) == keystream(st, n).push(step(advance(st, n)).1),
    decreases n,
{
    if n > 0 {
        lemma_advance_snoc(step(st).0, (n - 1) as nat);
        assert(keystream(st, n + 1) =~= keystream(st, n).push(step(advance(st, n)).1));
    } else {
        reveal_with_fuel(advance, 2);
        reveal_with_fuel(keystream, 2);
        assert(keystream(st, 1) =~= seq![step(st).1]);
    }
}

/// The keystream has the length asked for.
pub proof fn lemma_keystream_len(st: Rc4View, n: nat)
    ensures
        keystream(st, n).len() == n,
    decreases n,
{
    if n > 0 {
        lemma_keystream_len(step(st).0, (n - 1) as nat);
    }
}

impl Rc4 {
    /// Create a new RC4 cipher initialized with the given key.
    pub fn new(key: &[u8]) -> (r: Rc4)
        requires
            key@.len() > 0,
        ensures
            r@ == initial_view(key@),
    {
        let mut state = [0u8; 256];
        let mut k: usize = 0;
        while k < 256
            invariant
                0 <= k <= 256,
                state@.len() == 256,
                forall|m: int| 0 <= m < k ==> state@[m] == m as u8,
            decreases 256 - k,
        {
            state[k] = k as u8;
            k = k + 1;
        }
        assert(state@ =~= identity_state());

        let mut j: u8 = 0;
        let mut i: usize = 0;
        while i < 256
            invariant
                0 <= i <= 256,
                key@.len() > 0,
                state@.len() == 256,
                state@ == ksa(key@, i as nat).0,
                j == ksa(key@, i as nat).1,
            decreases 256 - i,
        {
            let ghost prev = state@;
            let kb = key[i % key.len()];
            j = j.wrapping_add(state[i]).wrapping_add(kb);
            let a = state[i];
            let b = state[j as usize];
            state[i] = b;
            state[j as usize] = a;
            proof {
                assert(state@ =~= seq_swap(prev, i as int, j as int));
                assert(ksa(key@, (i + 1) as nat) == (seq_swap(prev, i as int, j as int), j));
            }
            i = i + 1;
        }
        Rc4 { state, i: 0, j: 0 }
    }

    /// Generate the next byte of the keystream.
    #[verifier::rlimit(40)]
    #[verifier::spinoff_prover]
    pub fn next_byte(&mut self) -> (b: u8)
        ensures
            final(self)@ == step(old(self)@).0,
            b == step(old(self)@).1,
    {
        self.i = self.i.wrapping_add(1);
        self.j = self.j.wrapping_add(self.state[self.i as usize]);
        let a = self.state[self.i as usize];
        let c = self.state[self.j as usize];
        self.state[self.i as usize] = c;
        self.state[self.j as usize] = a;
        proof {
            assert(self.state@ =~= step(old(self)@).0.state);
        }
        let idx = self.state[self.i as usize].wrapping_add(self.state[self.j as usize]);
        self.state[idx as usize]
    }

    /// Discard the first `n` bytes of the keystream.
    /// MSE requires discarding the first 1024 bytes.
    pub fn discard(&mut self, n: usize)
        ensures
            final(self)@ == advance(old(self)@, n as nat),
    {
        let mut k: usize = 0;
        while k < n
            invariant
                0 <= k <= n,
                self@ == advance(old(self)@, k as nat),
            decreases n - k,
        {
            proof {
                lemma_advance_snoc(old(self)@, k as nat);
            }
            self.next_byte();
            k = k + 1;
        }
    }

    /// Encrypt/decrypt data in place (RC4 is symmetric).
    pub fn process_in_place(&mut self, data: &mut [u8])
        ensures
            final(data)@ == apply_keystream(old(self)@, old(data)@),
            final(self)@ == advance(old(self)@, old(data)@.len()),
    {
        let n = data.len();
        let mut k: usize = 0;
        while k < n
            invariant
                0 <= k <= n,
                n == data@.len(),
                data@.len() == old(data)@.len(),
                self@ == advance(old(self)@, k as nat),
                keystream(old(self)@, k as nat).len() == k,
                forall|m: int| 0 <= m < k ==> data@[m] == old(data)@[m] ^ keystream(old(self)@, k as nat)[m],
                forall|m: int| k <= m < n ==> data@[m] == old(data)@[m],
            decreases n - k,
        {
            proof {
                lemma_advance_snoc(old(self)@, k as nat);
                lemma_keystream_len(old(self)@, (k + 1) as nat);
            }
            let b = self.next_byte();
            data[k] = data[k] ^ b;
            k = k + 1;
        }
        proof {
            lemma_keystream_len(old(self)@, n as nat);
            assert(data@ =~= apply_keystream(old(self)@, old(data)@));
        }
    }
}

/// Processing data twice from the same cipher state gives the data back:
/// decryption is encryption with a cipher keyed the same way.
pub proof fn lemma_rc4_symmetric(st: Rc4View, data: Seq<u8>)
    ensures
        apply_keystream(st, apply_keystream(st, data)) == data,
{
    let ks = keystream(st, data.len());
    lemma_keystream_len(st, data.len());
    assert forall|k: int| 0 <= k < data.len() implies (data[k] ^ ks[k]) ^ ks[k] == data[k] by {
        let x = data[k];
        let y = ks[k];
        assert((x ^ y) ^ y == x) by (bit_vector);
    }
    assert(apply_keystream(st, apply_keystream(st, data)) =~= data);
}

/// The keystream is a stream: `a + b` bytes from a state are `a` bytes from it
/// followed by `b` bytes from the state reached after the first `a`.
pub proof fn lemma_keystream_split(st: Rc4View, a: nat, b: nat)
    ensures
        keystream(st, a + b) == keystream(st, a) + keystream(advance(st, a), b),
        advance(st, a + b) == advance(advance(st, a), b),
    decreases a,
{
    if a == 0 {
        assert(keystream(st, 0 + b) =~= keystream(st, 0) + keystream(advance(st, 0), b));
    } else {
        lemma_keystream_split(step(st).0, (a - 1) as nat, b);
        assert((a - 1) as nat + b == (a + b - 1) as nat);
        assert(keystream(st, a + b) =~= keystream(st, a) + keystream(advance(st, a), b));
    }
}

/// Processing a buffer in two pieces, one call after the other, gives the same
/// bytes and the same final state as processing it in one call.
pub proof fn lemma_process_in_pieces(st: Rc4View, d1: Seq<u8>, d2: Seq<u8>)
    ensures
        apply_keystream(st, d1 + d2) == apply_keystream(st, d1) + apply_keystream(advance(st, d1.len()), d2),
        advance(st, (d1 + d2).len()) == advance(advance(st, d1.len()), d2.len()),
{
    lemma_keystream_split(st, d1.len(), d2.len());
    lemma_keystream_len(st, d1.len());
    lemma_keystream_len(advance(st, d1.len()), d2.len());
    assert(apply_keystream(st, d1 + d2) =~= apply_keystream(st, d1) + apply_keystream(advance(st, d1.len()), d2));
}

/// The key is used cyclically: a key written twice in a row keys the cipher
/// exactly as the key once does, so both give the same keystream.
pub proof fn lemma_doubled_key(key: Seq<u8>)
    requires
        key.len() > 0,
    ensures
        initial_view(key + key) == initial_view(key),
{
    lemma_ksa_doubled(key, 256);
}

proof fn lemma_ksa_doubled(key: Seq<u8>, k: nat)
    requires
        key.len() > 0,
    ensures
        ksa(key + key, k) == ksa(key, k),
    decreases k,
{
    if k > 0 {
        lemma_ksa_doubled(key, (k - 1) as nat);
        let i = k - 1;
        let l = key.len() as int;
        let d = key + key;
        vstd::arithmetic::div_mod::lemma_mod_mod(i, l, 2);
        assert(d.len() == l * 2);
        let m = i % (l * 2);
        assert(0 <= m < l * 2) by {
            vstd::arithmetic::div_mod::lemma_mod_bound(i, l * 2);
        }
        if m < l {
            assert(m % l == m) by {
                vstd::arithmetic::div_mod::lemma_small_mod(m as nat, l as nat);
            }
            assert(d[m] == key[m]);
        } else {
            assert(m % l == m - l) by {
                vstd::arithmetic::div_mod::lemma_mod_sub_multiples_vanish(m, l);
                vstd::arithmetic::div_mod::lemma_small_mod((m - l) as nat, l as nat);
            }
            assert(d[m] == key[m - l]);
        }
        assert(d[i % d.len() as int] == key[i % l]);
    }
}

} // verus!
