//! The state of the reader and writer that sit on a connection after the MSE
//! handshake: the optional RC4 cipher of each direction, the bytes the reader
//! already holds from the handshake, and the encrypted bytes the writer still
//! owes its inner stream after a partial write. Polling the inner streams
//! happens outside the library; these types decide what is handed over.
use vstd::prelude::*;
use crate::rc4::Rc4;
use crate::mse::EncryptionStatus;

verus! {

/// The cipher's state, if there is one.
pub open spec fn cipher_state(c: Option<Rc4>) -> Option<crate::rc4::Rc4View> {
    match c {
        Some(r) => Some(r@),
        None => None,
    }
}

/// A reader that optionally decrypts data using RC4.
pub struct EncryptedReader<R> {
    inner: R,
    cipher: Option<Rc4>,
    /// Data already decrypted during the handshake (the initial payload).
    prefix: Vec<u8>,
    prefix_pos: usize,
}

impl<R> EncryptedReader<R> {
    /// The underlying stream.
    pub closed spec fn inner_stream(&self) -> R {
        self.inner
    }

    /// The decrypting cipher's state, if the connection is encrypted.
    pub closed spec fn cipher_view(&self) -> Option<crate::rc4::Rc4View> {
        cipher_state(self.cipher)
    }

    /// The handshake bytes not yet handed out.
    pub closed spec fn unread_prefix(&self) -> Seq<u8> {
        self.prefix@.subrange(self.prefix_pos as int, self.prefix@.len() as int)
    }

    /// The read position lies within the prefix.
    pub closed spec fn wf(&self) -> bool {
        self.prefix_pos <= self.prefix@.len()
    }

    /// A reader over `inner`, decrypting with `cipher` if given.
    pub fn new(inner: R, cipher: Option<Rc4>) -> (r: Self)
        ensures
            r.wf(),
            r.inner_stream() == inner,
            r.cipher_view() == cipher_state(cipher),
            r.unread_prefix() == Seq::<u8>::empty(),
    {
        let r = EncryptedReader { inner, cipher, prefix: Vec::new(), prefix_pos: 0 };
        assert(r.unread_prefix() =~= Seq::<u8>::empty());
        r
    }

    /// A reader that first hands out `prefix`, already decrypted, then reads
    /// `inner`, decrypting with `cipher` if given.
    pub fn with_prefix(inner: R, cipher: Option<Rc4>, prefix: Vec<u8>) -> (r: Self)
        ensures
            r.wf(),
            r.inner_stream() == inner,
            r.cipher_view() == cipher_state(cipher),
            r.unread_prefix() == prefix@,
    {
        let r = EncryptedReader { inner, cipher, prefix, prefix_pos: 0 };
        assert(r.unread_prefix() =~= prefix@);
        r
    }

    /// Whether handshake bytes remain to be handed out before the stream.
    pub fn has_prefix(&self) -> (b: bool)
        requires
            self.wf(),
        ensures
            b == (self.unread_prefix().len() > 0),
    {
        self.prefix_pos < self.prefix.len()
    }

    /// Hands out up to `max` of the remaining handshake bytes.
    pub fn read_prefix(&mut self, max: usize) -> (out: Vec<u8>)
        requires
            old(self).wf(),
        ensures
            final(self).wf(),
            out@.len() == if old(self).unread_prefix().len() < max {
                old(self).unread_prefix().len()
            } else {
                max as nat
            },
            out@ == old(self).unread_prefix().take(out@.len() as int),
            final(self).unread_prefix() == old(self).unread_prefix().skip(out@.len() as int),
            final(self).inner_stream() == old(self).inner_stream(),
            final(self).cipher_view() == old(self).cipher_view(),
    {
        let remaining = self.prefix.len() - self.prefix_pos;
        let to_copy = if remaining < max { remaining } else { max };
        let mut out: Vec<u8> = Vec::new();
        let start = self.prefix_pos;
        let mut k: usize = 0;
        while k < to_copy
            invariant
                0 <= k <= to_copy,
                start == self.prefix_pos,
                start + to_copy <= self.prefix.len(),
                out@ == self.prefix@.subrange(start as int, start + k),
            decreases to_copy - k,
        {
            out.push(self.prefix[start + k]);
            k = k + 1;
            assert(out@ =~= self.prefix@.subrange(start as int, start + k));
        }
        self.prefix_pos = start + to_copy;
        proof {
            assert(out@ =~= old(self).unread_prefix().take(to_copy as int));
            assert(self.unread_prefix() =~= old(self).unread_prefix().skip(to_copy as int));
        }
        out
    }

    /// Decrypts bytes just read from the inner stream, in place; leaves them as
    /// they are on a plaintext connection.
    pub fn decrypt_incoming(&mut self, data: &mut [u8])
        ensures
            final(self).inner_stream() == old(self).inner_stream(),
            final(self).unread_prefix() == old(self).unread_prefix(),
            final(self).wf() == old(self).wf(),
            match old(self).cipher_view() {
                Some(c) => {
                    &&& final(data)@ == crate::rc4::apply_keystream(c, old(data)@)
                    &&& final(self).cipher_view() == Some(crate::rc4::advance(c, old(data)@.len()))
                },
                None => final(data)@ == old(data)@ && final(self).cipher_view() == old(self).cipher_view(),
            },
    {
        match &mut self.cipher {
            Some(c) => {
                c.process_in_place(data);
            },
            None => {},
        }
    }

    /// The underlying stream, for reading from it.
    pub fn inner_mut(&mut self) -> (r: &mut R)
        ensures
            *r == old(self).inner_stream(),
            final(self).inner_stream() == *final(r),
            final(self).cipher_view() == old(self).cipher_view(),
            final(self).unread_prefix() == old(self).unread_prefix(),
            final(self).wf() == old(self).wf(),
    {
        &mut self.inner
    }
}

/// A writer that optionally encrypts data using RC4. Handles partial writes
/// by keeping the encrypted bytes that were not yet written, so that the
/// cipher stays in step with what was actually sent.
pub struct EncryptedWriter<W> {
    inner: W,
    cipher: Option<Rc4>,
    /// Encrypted data pending write; not empty while a partial write is in progress.
    pending: Vec<u8>,
    /// How many bytes of `pending` have been written so far.
    pending_written: usize,
}

impl<W> EncryptedWriter<W> {
    /// The underlying stream.
    pub closed spec fn inner_stream(&self) -> W {
        self.inner
    }

    /// The encrypting cipher's state, if the connection is encrypted.
    pub closed spec fn cipher_view(&self) -> Option<crate::rc4::Rc4View> {
        cipher_state(self.cipher)
    }

    /// All the encrypted bytes of the write in progress.
    pub closed spec fn pending_total(&self) -> Seq<u8> {
        self.pending@
    }

    /// The encrypted bytes of the write in progress not yet written.
    pub closed spec fn pending_rest(&self) -> Seq<u8> {
        self.pending@.subrange(self.pending_written as int, self.pending@.len() as int)
    }

    /// The written count lies within the pending bytes.
    pub closed spec fn wf(&self) -> bool {
        self.pending_written <= self.pending@.len()
    }

    /// A writer over `inner`, encrypting with `cipher` if given.
    pub fn new(inner: W, cipher: Option<Rc4>) -> (w: Self)
        ensures
            w.wf(),
            w.inner_stream() == inner,
            w.cipher_view() == cipher_state(cipher),
            w.pending_total() == Seq::<u8>::empty(),
    {
        EncryptedWriter { inner, cipher, pending: Vec::new(), pending_written: 0 }
    }

    /// Whether writes are encrypted.
    pub fn is_encrypting(&self) -> (b: bool)
        ensures
            b == (self.cipher_view() is Some),
    {
        self.cipher.is_some()
    }

    /// Whether a partial write is in progress.
    pub fn has_pending(&self) -> (b: bool)
        ensures
            b == (self.pending_total().len() > 0),
    {
        self.pending.len() > 0
    }

    /// The encrypted bytes still to be written.
    pub fn pending_bytes(&self) -> (s: &[u8])
        requires
            self.wf(),
        ensures
            s@ == self.pending_rest(),
    {
        vstd::slice::slice_subrange(self.pending.as_slice(), self.pending_written, self.pending.len())
    }

    /// Records that `n` more pending bytes were written. When none remain, the
    /// write in progress is over: the pending bytes are dropped and their
    /// count is returned; otherwise `None`.
    pub fn pending_progress(&mut self, n: usize) -> (done: Option<usize>)
        requires
            old(self).wf(),
        ensures
            final(self).wf(),
            final(self).inner_stream() == old(self).inner_stream(),
            final(self).cipher_view() == old(self).cipher_view(),
            n >= old(self).pending_rest().len() ==> {
                &&& done == Some(old(self).pending_total().len() as usize)
                &&& final(self).pending_total() == Seq::<u8>::empty()
            },
            n < old(self).pending_rest().len() ==> {
                &&& done is None
                &&& final(self).pending_total() == old(self).pending_total()
                &&& final(self).pending_rest() == old(self).pending_rest().skip(n as int)
            },
    {
        let remaining = self.pending.len() - self.pending_written;
        if n >= remaining {
            let total = self.pending.len();
            self.pending.clear();
            self.pending_written = 0;
            Some(total)
        } else {
            self.pending_written = self.pending_written + n;
            proof {
                assert(self.pending_rest() =~= old(self).pending_rest().skip(n as int));
            }
            None
        }
    }

    /// Encrypts `buf` for writing, advancing the cipher.
    pub fn encrypt_outgoing(&mut self, buf: &[u8]) -> (out: Vec<u8>)
        requires
            old(self).cipher_view() is Some,
        ensures
            out@ == crate::rc4::apply_keystream(old(self).cipher_view()->0, buf@),
            final(self).cipher_view() == Some(crate::rc4::advance(old(self).cipher_view()->0, buf@.len())),
            final(self).inner_stream() == old(self).inner_stream(),
            final(self).pending_total() == old(self).pending_total(),
            final(self).pending_rest() == old(self).pending_rest(),
            final(self).wf() == old(self).wf(),
    {
        let mut out = vstd::slice::slice_to_vec(buf);
        match &mut self.cipher {
            Some(c) => {
                c.process_in_place(out.as_mut_slice());
            },
            None => {},
        }
        out
    }

    /// After the inner stream took `n` bytes of freshly encrypted `encrypted`,
    /// made from a buffer of `buf_len` bytes: if all were taken the write is
    /// complete and `buf_len` is returned; otherwise the rest becomes the
    /// pending write and `None` is returned.
    pub fn after_write(&mut self, encrypted: Vec<u8>, n: usize, buf_len: usize) -> (done: Option<usize>)
        requires
            old(self).wf(),
        ensures
            final(self).wf(),
            final(self).inner_stream() == old(self).inner_stream(),
            final(self).cipher_view() == old(self).cipher_view(),
            n >= encrypted@.len() ==> done == Some(buf_len) && final(self).pending_total()
                == old(self).pending_total(),
            n < encrypted@.len() ==> {
                &&& done is None
                &&& final(self).pending_total() == encrypted@
                &&& final(self).pending_rest() == encrypted@.skip(n as int)
            },
    {
        if n >= encrypted.len() {
            Some(buf_len)
        } else {
            self.pending = encrypted;
            self.pending_written = n;
            proof {
                assert(self.pending_rest() =~= encrypted@.skip(n as int));
            }
            None
        }
    }

    /// The inner stream was not ready for freshly encrypted bytes: they all
    /// become the pending write.
    pub fn defer(&mut self, encrypted: Vec<u8>)
        ensures
            final(self).wf(),
            final(self).inner_stream() == old(self).inner_stream(),
            final(self).cipher_view() == old(self).cipher_view(),
            final(self).pending_total() == encrypted@,
            final(self).pending_rest() == encrypted@,
    {
        self.pending = encrypted;
        self.pending_written = 0;
        assert(self.pending_rest() =~= encrypted@);
    }

    /// What a write of `buf` hands the inner stream: `buf` itself when not
    /// encrypting; else the rest of a write in progress, which goes first;
    /// else `buf` encrypted, the cipher advanced over it.
    pub fn next_write(&mut self, buf: &[u8]) -> (step: WriteStep)
        requires
            old(self).wf(),
        ensures
            final(self).wf(),
            final(self).inner_stream() == old(self).inner_stream(),
            final(self).pending_total() == old(self).pending_total(),
            final(self).pending_rest() == old(self).pending_rest(),
            match step {
                WriteStep::Direct => old(self).cipher_view() is None && final(self).cipher_view() == old(self).cipher_view(),
                WriteStep::Resume(b) => old(self).cipher_view() is Some && old(self).pending_total().len() > 0
                    && b@ == old(self).pending_rest() && final(self).cipher_view() == old(self).cipher_view(),
                WriteStep::Fresh(b) => old(self).cipher_view() is Some && old(self).pending_total().len() == 0
                    && b@ == crate::rc4::apply_keystream(old(self).cipher_view()->0, buf@)
                    && final(self).cipher_view() == Some(crate::rc4::advance(old(self).cipher_view()->0, buf@.len())),
            },
    {
        if !self.is_encrypting() {
            return WriteStep::Direct;
        }
        if self.has_pending() {
            let rest = vstd::slice::slice_to_vec(self.pending_bytes());
            return WriteStep::Resume(rest);
        }
        WriteStep::Fresh(self.encrypt_outgoing(buf))
    }

    /// What the write of `buf_len` bytes answers once the inner stream took
    /// `taken` bytes of the step (`None`: it was not ready). A fresh
    /// encryption it did not take in full becomes the write in progress;
    /// the write is over, and its length answered, once every byte of its
    /// encryption was taken.
    pub fn on_written(&mut self, step: WriteStep, taken: Option<usize>, buf_len: usize) -> (done: Option<usize>)
        requires
            old(self).wf(),
        ensures
            final(self).wf(),
            final(self).inner_stream() == old(self).inner_stream(),
            final(self).cipher_view() == old(self).cipher_view(),
            match (step, taken) {
                (WriteStep::Direct, _) => done == taken && final(self).pending_total() == old(self).pending_total()
                    && final(self).pending_rest() == old(self).pending_rest(),
                (WriteStep::Resume(_), None) => done is None && final(self).pending_total() == old(self).pending_total()
                    && final(self).pending_rest() == old(self).pending_rest(),
                (WriteStep::Resume(_), Some(n)) => if n >= old(self).pending_rest().len() {
                    done == Some(old(self).pending_total().len() as usize) && final(self).pending_total() == Seq::<u8>::empty()
                } else {
                    done is None && final(self).pending_total() == old(self).pending_total()
                        && final(self).pending_rest() == old(self).pending_rest().skip(n as int)
                },
                (WriteStep::Fresh(b), None) => done is None && final(self).pending_total() == b@
                    && final(self).pending_rest() == b@,
                (WriteStep::Fresh(b), Some(n)) => if n >= b@.len() {
                    done == Some(buf_len) && final(self).pending_total() == old(self).pending_total()
                } else {
                    done is None && final(self).pending_total() == b@ && final(self).pending_rest() == b@.skip(n as int)
                },
            },
    {
        match step {
            WriteStep::Direct => taken,
            WriteStep::Resume(_) => match taken {
                Some(n) => self.pending_progress(n),
                None => None,
            },
            WriteStep::Fresh(b) => match taken {
                Some(n) => self.after_write(b, n, buf_len),
                None => {
                    self.defer(b);
                    None
                },
            },
        }
    }

    /// The underlying stream, for writing to it.
    pub fn inner_mut(&mut self) -> (r: &mut W)
        ensures
            *r == old(self).inner_stream(),
            final(self).inner_stream() == *final(r),
            final(self).cipher_view() == old(self).cipher_view(),
            final(self).pending_total() == old(self).pending_total(),
            final(self).pending_rest() == old(self).pending_rest(),
            final(self).wf() == old(self).wf(),
    {
        &mut self.inner
    }
}

/// What a write hands the inner stream.
pub enum WriteStep {
    /// The caller's bytes, unencrypted.
    Direct,
    /// The rest of the write in progress.
    Resume(Vec<u8>),
    /// The caller's bytes, freshly encrypted.
    Fresh(Vec<u8>),
}

/// Result of the MSE handshake.
pub struct MseHandshakeResult<R, W> {
    pub reader: R,
    pub writer: W,
    pub encryption_status: EncryptionStatus,
}

/// A writer keyed with `start` is in step with what it sent: its cipher has
/// advanced over exactly the bytes `plain` given to it for encryption, and
/// the bytes the inner stream took, followed by those still pending, are
/// the encryption of `plain` from the start.
pub open spec fn writer_in_step(
    cipher: crate::rc4::Rc4View,
    start: crate::rc4::Rc4View,
    plain: Seq<u8>,
    taken: Seq<u8>,
    pending_rest: Seq<u8>,
) -> bool {
    &&& cipher == crate::rc4::advance(start, plain.len())
    &&& taken + pending_rest == crate::rc4::apply_keystream(start, plain)
}

/// A fresh write keeps the writer in step: `buf` is encrypted once, from
/// where the cipher stood, and whatever part of it the inner stream takes,
/// the rest is what stays pending.
pub proof fn lemma_fresh_write_in_step(
    cipher: crate::rc4::Rc4View,
    start: crate::rc4::Rc4View,
    plain: Seq<u8>,
    taken: Seq<u8>,
    buf: Seq<u8>,
    k: nat,
)
    requires
        writer_in_step(cipher, start, plain, taken, Seq::empty()),
        k <= buf.len(),
    ensures
        ({
            let enc = crate::rc4::apply_keystream(cipher, buf);
            writer_in_step(
                crate::rc4::advance(cipher, buf.len()),
                start,
                plain + buf,
                taken + enc.take(k as int),
                enc.skip(k as int),
            )
        }),
{
    let enc = crate::rc4::apply_keystream(cipher, buf);
    crate::rc4::lemma_process_in_pieces(start, plain, buf);
    crate::rc4::lemma_keystream_len(cipher, buf.len());
    assert(taken =~= taken + Seq::<u8>::empty());
    assert(taken + enc.take(k as int) + enc.skip(k as int) =~= taken + enc);
    assert(crate::rc4::advance(start, (plain + buf).len()) == crate::rc4::advance(cipher, buf.len()));
}

/// Finishing a write in progress keeps the writer in step: the cipher does
/// not move (nothing is encrypted twice), and the bytes taken move from
/// pending to taken.
pub proof fn lemma_resumed_write_in_step(
    cipher: crate::rc4::Rc4View,
    start: crate::rc4::Rc4View,
    plain: Seq<u8>,
    taken: Seq<u8>,
    rest: Seq<u8>,
    k: nat,
)
    requires
        writer_in_step(cipher, start, plain, taken, rest),
        k <= rest.len(),
    ensures
        writer_in_step(cipher, start, plain, taken + rest.take(k as int), rest.skip(k as int)),
{
    assert(taken + rest.take(k as int) + rest.skip(k as int) =~= taken + rest);
}

/// An encrypting writer as a sequence of writes sees it: its cipher, the
/// encrypted bytes of the write in progress (`total` of them, `rest` not yet
/// taken), and the history: the bytes given for encryption, the bytes the
/// inner stream took, the writes reported done (their buffers concatenated)
/// and the buffer of the write in progress.
pub struct WriterModel {
    pub cipher: crate::rc4::Rc4View,
    pub rest: Seq<u8>,
    pub total: nat,
    pub plain: Seq<u8>,
    pub taken: Seq<u8>,
    pub acked: Seq<u8>,
    pub inflight: Seq<u8>,
}

/// A fresh encrypting writer keyed to `start`.
pub open spec fn writer_start(start: crate::rc4::Rc4View) -> WriterModel {
    WriterModel {
        cipher: start,
        rest: Seq::empty(),
        total: 0,
        plain: Seq::empty(),
        taken: Seq::empty(),
        acked: Seq::empty(),
        inflight: Seq::empty(),
    }
}

/// One write of `buf` as `next_write` and then `on_written` make it, the
/// inner stream taking `k` of the bytes handed to it (`None`: not ready):
/// the model after it, and what the write answers (`Some(n)`: done, `n`
/// bytes written).
pub open spec fn write_call(m: WriterModel, buf: Seq<u8>, k: Option<nat>) -> (WriterModel, Option<nat>) {
    if m.total > 0 {
        match k {
            None => (m, None),
            Some(n) => if n >= m.rest.len() {
                (
                    WriterModel {
                        rest: Seq::empty(),
                        total: 0,
                        taken: m.taken + m.rest,
                        acked: m.acked + m.inflight,
                        inflight: Seq::empty(),
                        ..m
                    },
                    Some(m.total),
                )
            } else {
                (WriterModel { rest: m.rest.skip(n as int), taken: m.taken + m.rest.take(n as int), ..m }, None)
            },
        }
    } else {
        let enc = crate::rc4::apply_keystream(m.cipher, buf);
        let c2 = crate::rc4::advance(m.cipher, buf.len());
        match k {
            None => (
                WriterModel { cipher: c2, rest: enc, total: enc.len(), plain: m.plain + buf, inflight: buf, ..m },
                None,
            ),
            Some(n) => if n >= enc.len() {
                (
                    WriterModel { cipher: c2, plain: m.plain + buf, taken: m.taken + enc, acked: m.acked + buf, ..m },
                    Some(buf.len()),
                )
            } else {
                (
                    WriterModel {
                        cipher: c2,
                        rest: enc.skip(n as int),
                        total: enc.len(),
                        plain: m.plain + buf,
                        taken: m.taken + enc.take(n as int),
                        inflight: buf,
                        ..m
                    },
                    None,
                )
            },
        }
    }
}

/// The writer after a sequence of writes, each a buffer and what the inner
/// stream took.
pub open spec fn write_calls(m: WriterModel, calls: Seq<(Seq<u8>, Option<nat>)>) -> WriterModel
    decreases calls.len(),
{
    if calls.len() == 0 {
        m
    } else {
        write_calls(write_call(m, calls[0].0, calls[0].1).0, calls.skip(1))
    }
}

/// What holds of an encrypting writer keyed to `start` between writes: the
/// cipher has advanced over exactly the bytes given to it; what the inner
/// stream took, followed by what is pending, is their encryption from the
/// start; they are the writes reported done followed by the write in
/// progress, whose encryption is the pending bytes' whole.
pub open spec fn writer_inv(m: WriterModel, start: crate::rc4::Rc4View) -> bool {
    &&& m.cipher == crate::rc4::advance(start, m.plain.len())
    &&& m.taken + m.rest == crate::rc4::apply_keystream(start, m.plain)
    &&& m.plain == m.acked + m.inflight
    &&& m.total == m.inflight.len()
    &&& m.rest.len() <= m.total
    &&& m.total == 0 ==> m.rest.len() == 0
}

/// One write keeps the writer in step; a write that is done answers the
/// length of its buffer when the caller retried a write in progress with the
/// same buffer; and a retried write encrypts nothing again.
pub proof fn lemma_write_call(m: WriterModel, start: crate::rc4::Rc4View, buf: Seq<u8>, k: Option<nat>)
    requires
        writer_inv(m, start),
    ensures
        writer_inv(write_call(m, buf, k).0, start),
        m.total > 0 ==> write_call(m, buf, k).0.cipher == m.cipher && write_call(m, buf, k).0.plain == m.plain,
        write_call(m, buf, k).1 matches Some(d) ==> ((m.total > 0 ==> buf == m.inflight) ==> d == buf.len()),
{
    crate::rc4::lemma_keystream_len(m.cipher, buf.len());
    if m.total > 0 {
        if let Some(n) = k {
            if n >= m.rest.len() {
                assert(m.taken + m.rest + Seq::<u8>::empty() =~= m.taken + m.rest);
                assert(m.acked + m.inflight + Seq::<u8>::empty() =~= m.acked + m.inflight);
            } else {
                assert(m.taken + m.rest.take(n as int) + m.rest.skip(n as int) =~= m.taken + m.rest);
            }
        }
    } else {
        let enc = crate::rc4::apply_keystream(m.cipher, buf);
        crate::rc4::lemma_process_in_pieces(start, m.plain, buf);
        assert(m.rest =~= Seq::<u8>::empty());
        assert(m.inflight =~= Seq::<u8>::empty());
        assert(m.acked =~= m.plain);
        assert(m.taken =~= m.taken + m.rest);
        assert(crate::rc4::advance(start, (m.plain + buf).len()) == crate::rc4::advance(m.cipher, buf.len()));
        match k {
            None => {
                assert(m.taken + enc =~= m.taken + enc);
                assert(m.plain + buf =~= m.acked + buf);
            },
            Some(n) => if n >= enc.len() {
                assert(m.taken + enc + Seq::<u8>::empty() =~= m.taken + enc);
                assert(m.plain + buf =~= m.acked + buf + Seq::<u8>::empty());
            } else {
                assert(m.taken + enc.take(n as int) + enc.skip(n as int) =~= m.taken + enc);
                assert(m.plain + buf =~= m.acked + buf);
            },
        }
    }
}

/// Over any sequence of writes, an encrypting writer stays in step with
/// what it sent: the bytes the inner stream took, followed by those still
/// pending, are the encryption, with the keystream from the start, of the
/// buffers reported written followed by the one in progress; when no write
/// is in progress, the inner stream took exactly the encryption of the
/// buffers reported written.
pub proof fn lemma_write_calls(start: crate::rc4::Rc4View, calls: Seq<(Seq<u8>, Option<nat>)>)
    ensures
        writer_inv(write_calls(writer_start(start), calls), start),
        ({
            let m = write_calls(writer_start(start), calls);
            m.total == 0 ==> m.taken == crate::rc4::apply_keystream(start, m.acked)
        }),
{
    let m0 = writer_start(start);
    crate::rc4::lemma_keystream_len(start, 0);
    assert(crate::rc4::apply_keystream(start, Seq::<u8>::empty()) =~= Seq::<u8>::empty());
    assert(Seq::<u8>::empty() + Seq::<u8>::empty() =~= Seq::<u8>::empty());
    assert(writer_inv(m0, start));
    lemma_write_calls_from(m0, start, calls);
    let m = write_calls(m0, calls);
    if m.total == 0 {
        assert(m.taken + m.rest =~= m.taken);
        assert(m.acked + m.inflight =~= m.acked);
    }
}

proof fn lemma_write_calls_from(m: WriterModel, start: crate::rc4::Rc4View, calls: Seq<(Seq<u8>, Option<nat>)>)
    requires
        writer_inv(m, start),
    ensures
        writer_inv(write_calls(m, calls), start),
    decreases calls.len(),
{
    if calls.len() > 0 {
        lemma_write_call(m, start, calls[0].0, calls[0].1);
        lemma_write_calls_from(write_call(m, calls[0].0, calls[0].1).0, start, calls.skip(1));
    }
}

} // verus!
