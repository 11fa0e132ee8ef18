//! Decisions of the benchmark's clients of the torrent programs under test:
//! the passwords to try for qBittorrent from its log, whether a login was
//! accepted, and whether the Transmission seeders are all seeding.
use vstd::prelude::*;
use crate::text::{is_white, lowercase, push_char, trimmed, unicode_white_space};

verus! {

// ----- lines -----

/// Where `c` first occurs in `s`.
pub open spec fn index_of_char(s: Seq<char>, c: char) -> Option<nat>
    decreases s.len(),
{
    if s.len() == 0 {
        None
    } else if s[0] == c {
        Some(0)
    } else {
        match index_of_char(s.skip(1), c) {
            Some(i) => Some(i + 1),
            None => None,
        }
    }
}

/// A line without the `\r` of a `\r\n` ending.
pub open spec fn strip_cr(l: Seq<char>) -> Seq<char> {
    if l.len() > 0 && l.last() == '\r' {
        l.drop_last()
    } else {
        l
    }
}

/// The lines of a text as `str::lines` gives them: the text is cut after
/// each `\n`, the `\n` (and a `\r` just before it) dropped; a text that ends
/// with `\n` has no empty last line.
pub open spec fn lines_of(s: Seq<char>) -> Seq<Seq<char>>
    decreases s.len(),
{
    if s.len() == 0 {
        Seq::empty()
    } else {
        match index_of_char(s, '\n') {
            Some(i) => if i < s.len() {
                seq![strip_cr(s.take(i as int))] + lines_of(s.skip(i + 1int))
            } else {
                seq![s]
            },
            None => seq![s],
        }
    }
}

proof fn lemma_index_of_char_at(s: Seq<char>, c: char, i: int)
    requires
        0 <= i < s.len(),
        s[i] == c,
        forall|k: int| 0 <= k < i ==> s[k] != c,
    ensures
        index_of_char(s, c) == Some(i as nat),
    decreases s.len(),
{
    if i > 0 {
        assert forall|k: int| 0 <= k < i - 1 implies s.skip(1)[k] != c by {
            assert(s.skip(1)[k] == s[k + 1]);
        }
        lemma_index_of_char_at(s.skip(1), c, i - 1);
    }
}

proof fn lemma_index_of_char_none(s: Seq<char>, c: char)
    requires
        forall|k: int| 0 <= k < s.len() ==> s[k] != c,
    ensures
        index_of_char(s, c) is None,
    decreases s.len(),
{
    if s.len() > 0 {
        assert forall|k: int| 0 <= k < s.len() - 1 implies s.skip(1)[k] != c by {
            assert(s.skip(1)[k] == s[k + 1]);
        }
        lemma_index_of_char_none(s.skip(1), c);
    }
}

// ----- the temporary password -----

/// The phrase that marks the log line with qBittorrent's temporary password.
pub open spec fn phrase() -> Seq<char> {
    "temporary password"@
}

/// The line holds the phrase.
pub open spec fn has_phrase(l: Seq<char>) -> bool {
    exists|k: int| 0 <= k && k + 18 <= l.len() && #[trigger] l.subrange(k, k + 18) == phrase()
}

/// Where `c` last occurs in `l`.
pub open spec fn last_index_of(l: Seq<char>, c: char) -> Option<nat>
    decreases l.len(),
{
    if l.len() == 0 {
        None
    } else if l.last() == c {
        Some((l.len() - 1) as nat)
    } else {
        last_index_of(l.drop_last(), c)
    }
}

/// The line without the white space at its end.
pub open spec fn drop_trailing_white(l: Seq<char>) -> Seq<char>
    decreases l.len(),
{
    if l.len() > 0 && unicode_white_space(l.last()) {
        drop_trailing_white(l.drop_last())
    } else {
        l
    }
}

/// The characters at the end of `l` up to the last white space before them.
pub open spec fn trailing_word(l: Seq<char>) -> Seq<char>
    decreases l.len(),
{
    if l.len() > 0 && !unicode_white_space(l.last()) {
        trailing_word(l.drop_last()).push(l.last())
    } else {
        Seq::empty()
    }
}

/// The passwords a line offers, in the order they are tried: when the line
/// holds the phrase, what follows its last `:`, trimmed, unless nothing is
/// left; then its last white-space-separated word, trimmed.
pub open spec fn line_candidates(l: Seq<char>) -> Seq<Seq<char>> {
    if !has_phrase(l) {
        Seq::empty()
    } else {
        after_colon(l) + last_word(l)
    }
}

/// The passwords the lines offer, line by line.
pub open spec fn candidates_of(lines: Seq<Seq<char>>) -> Seq<Seq<char>>
    decreases lines.len(),
{
    if lines.len() == 0 {
        Seq::empty()
    } else {
        candidates_of(lines.drop_last()) + line_candidates(lines.last())
    }
}

proof fn lemma_candidates_append(a: Seq<Seq<char>>, b: Seq<Seq<char>>)
    ensures
        candidates_of(a + b) == candidates_of(a) + candidates_of(b),
    decreases b.len(),
{
    if b.len() == 0 {
        assert(a + b =~= a);
    } else {
        lemma_candidates_append(a, b.drop_last());
        assert((a + b).drop_last() =~= a + b.drop_last());
    }
}

proof fn lemma_candidates_single(x: Seq<char>)
    ensures
        candidates_of(seq![x]) == line_candidates(x),
{
    let one = seq![x];
    assert(one.drop_last().len() == 0);
    assert(candidates_of(one.drop_last()) == Seq::<Seq<char>>::empty());
    assert(one.last() == x);
    assert(candidates_of(one) == candidates_of(one.drop_last()) + line_candidates(x));
    assert(Seq::<Seq<char>>::empty() + line_candidates(x) =~= line_candidates(x));
}

fn chars_of(s: &str, lo: usize, hi: usize) -> (r: String)
    requires
        lo <= hi <= s@.len(),
    ensures
        r@ == s@.subrange(lo as int, hi as int),
{
    let mut r = String::new();
    let mut i = lo;
    while i < hi
        invariant
            lo <= i <= hi <= s@.len(),
            r@ == s@.subrange(lo as int, i as int),
        decreases hi - i,
    {
        push_char(&mut r, s.get_char(i));
        assert(s@.subrange(lo as int, i + 1) =~= s@.subrange(lo as int, i as int).push(s@[i as int]));
        i = i + 1;
    }
    r
}

fn line_has_phrase(l: &str) -> (r: bool)
    ensures
        r == has_phrase(l@),
{
    let p = "temporary password";
    proof {
        reveal_strlit("temporary password");
    }
    let n = l.unicode_len();
    if n < 18 {
        return false;
    }
    let mut k: usize = 0;
    while k <= n - 18
        invariant
            n >= 18,
            n == l@.len(),
            p@ == phrase(),
            phrase().len() == 18,
            forall|j: int| 0 <= j < k && j + 18 <= n ==> #[trigger] l@.subrange(j, j + 18) != phrase(),
        decreases n - k,
    {
        let mut m: usize = 0;
        while m < 18 && l.get_char(k + m) == p.get_char(m)
            invariant
                0 <= m <= 18,
                k + 18 <= n,
                n == l@.len(),
                p@ == phrase(),
                phrase().len() == 18,
                forall|q: int| 0 <= q < m ==> l@[k + q] == phrase()[q],
            decreases 18 - m,
        {
            m = m + 1;
        }
        if m == 18 {
            assert(l@.subrange(k as int, k + 18) =~= phrase());
            return true;
        }
        assert(l@.subrange(k as int, k + 18)[m as int] != phrase()[m as int]);
        k = k + 1;
    }
    false
}

/// The passwords to try from qBittorrent's log, in order: from each line
/// that mentions its temporary password, what follows the last `:` and then
/// the last word.
pub fn temp_password_candidates(logs: &str) -> (r: Vec<String>)
    ensures
        r@.len() == candidates_of(lines_of(logs@)).len(),
        forall|k: int| 0 <= k < r@.len() ==> #[trigger] r@[k]@ == candidates_of(lines_of(logs@))[k],
{
    let ghost s = logs@;
    let n = logs.unicode_len();
    let mut out: Vec<String> = Vec::new();
    let mut start: usize = 0;
    let mut i: usize = 0;
    let ghost mut done: Seq<Seq<char>> = Seq::empty();
    proof {
        assert(s.skip(0) =~= s);
        assert(done + lines_of(s.skip(0)) =~= lines_of(s));
    }
    while i < n
        invariant
            n == s.len(),
            s == logs@,
            0 <= start <= i <= n,
            done + lines_of(s.skip(start as int)) == lines_of(s),
            forall|q: int| start <= q < i ==> s[q] != '\n',
            out@.len() == candidates_of(done).len(),
            forall|k: int| 0 <= k < out@.len() ==> #[trigger] out@[k]@ == candidates_of(done)[k],
        decreases n - i,
    {
        if logs.get_char(i) == '\n' {
            let mut end = i;
            if end > start && logs.get_char(end - 1) == '\r' {
                end = end - 1;
            }
            let line = chars_of(logs, start, end);
            let ghost rest = s.skip(start as int);
            proof {
                assert forall|q: int| 0 <= q < i - start implies rest[q] != '\n' by {
                    assert(rest[q] == s[start + q]);
                }
                assert(rest[i - start] == '\n');
                lemma_index_of_char_at(rest, '\n', i - start);
                assert(rest.take(i - start) =~= s.subrange(start as int, i as int));
                assert(rest.skip(i - start + 1) =~= s.skip(i + 1));
                assert(line@ =~= strip_cr(rest.take(i - start)));
                assert(lines_of(rest) == seq![line@] + lines_of(s.skip(i + 1)));
            }
            let ghost before = out@;
            push_line_candidates(&mut out, line.as_str());
            proof {
                lemma_candidates_append(done, seq![line@]);
                lemma_candidates_single(line@);
                let cd = candidates_of(done);
                let lc = line_candidates(line@);
                assert forall|k: int| 0 <= k < out@.len() implies #[trigger] out@[k]@ == (cd + lc)[k] by {
                    if k < before.len() {
                        assert(out@[k] == before[k]);
                    } else {
                        assert(out@[before.len() + (k - before.len())]@ == lc[k - before.len()]);
                    }
                }
                done = done + seq![line@];
                assert(done + lines_of(s.skip(i + 1)) =~= lines_of(s));
            }
            start = i + 1;
        }
        i = i + 1;
    }
    if start < n {
        let line = chars_of(logs, start, n);
        let ghost rest = s.skip(start as int);
        proof {
            assert forall|q: int| 0 <= q < rest.len() implies rest[q] != '\n' by {
                assert(rest[q] == s[start + q]);
            }
            lemma_index_of_char_none(rest, '\n');
            assert(line@ =~= rest);
            assert(lines_of(rest) == seq![line@]);
        }
        let ghost before = out@;
        push_line_candidates(&mut out, line.as_str());
        proof {
            lemma_candidates_append(done, seq![line@]);
            lemma_candidates_single(line@);
            let cd = candidates_of(done);
            let lc = line_candidates(line@);
            assert forall|k: int| 0 <= k < out@.len() implies #[trigger] out@[k]@ == (cd + lc)[k] by {
                if k < before.len() {
                    assert(out@[k] == before[k]);
                } else {
                    assert(out@[before.len() + (k - before.len())]@ == lc[k - before.len()]);
                }
            }
            done = done + seq![line@];
            assert(done =~= lines_of(s));
        }
    } else {
        proof {
            assert(s.skip(start as int) =~= Seq::<char>::empty());
            assert(done + Seq::<Seq<char>>::empty() =~= done);
        }
    }
    out
}

/// What follows the last `:` of a line, trimmed, if anything is left.
pub open spec fn after_colon(l: Seq<char>) -> Seq<Seq<char>> {
    match last_index_of(l, ':') {
        Some(i) => if trimmed(l.skip(i + 1int)).len() > 0 {
            seq![trimmed(l.skip(i + 1int))]
        } else {
            Seq::empty()
        },
        None => Seq::empty(),
    }
}

/// The last word of a line, trimmed, if the line has one.
pub open spec fn last_word(l: Seq<char>) -> Seq<Seq<char>> {
    let d = drop_trailing_white(l);
    if d.len() > 0 {
        seq![trimmed(trailing_word(d))]
    } else {
        Seq::empty()
    }
}

/// Appends what one line offers.
fn push_line_candidates(out: &mut Vec<String>, l: &str)
    ensures
        final(out)@.len() == old(out)@.len() + line_candidates(l@).len(),
        forall|k: int| 0 <= k < old(out)@.len() ==> #[trigger] final(out)@[k] == old(out)@[k],
        forall|k: int|
            0 <= k < line_candidates(l@).len() ==> #[trigger] final(out)@[old(out)@.len() + k]@ == line_candidates(l@)[k],
{
    if !line_has_phrase(l) {
        return;
    }
    let ghost before = out@;
    let ghost ac = after_colon(l@);
    let ghost wd = last_word(l@);
    assert(line_candidates(l@) == ac + wd);
    let n = l.unicode_len();
    // After the last colon.
    let mut c = n;
    while c > 0 && l.get_char(c - 1) != ':'
        invariant
            0 <= c <= n,
            n == l@.len(),
            forall|q: int| c <= q < n ==> l@[q] != ':',
        decreases c,
    {
        c = c - 1;
    }
    proof {
        lemma_last_index(l@, ':', c as int);
    }
    if c > 0 {
        let tail = chars_of(l, c, n);
        assert(tail@ =~= l@.skip(c as int));
        let t = crate::text::trim(tail.as_str());
        if t.unicode_len() > 0 {
            let mut pw = String::new();
            crate::scenarios::append_str(&mut pw, t);
            assert(pw@ =~= t@);
            out.push(pw);
        }
    }
    assert(out@.len() == before.len() + ac.len());
    assert(forall|k: int| 0 <= k < before.len() ==> #[trigger] out@[k] == before[k]);
    assert(forall|k: int| 0 <= k < ac.len() ==> #[trigger] out@[before.len() + k]@ == ac[k]);
    let ghost mid = out@;
    // The last word.
    assert(l@.take(n as int) =~= l@);
    let mut e = n;
    while e > 0 && is_white(l.get_char(e - 1))
        invariant
            0 <= e <= n,
            n == l@.len(),
            drop_trailing_white(l@) == drop_trailing_white(l@.take(e as int)),
        decreases e,
    {
        proof {
            assert(l@.take(e - 1) =~= l@.take(e as int).drop_last());
        }
        e = e - 1;
    }
    proof {
        assert(drop_trailing_white(l@.take(e as int)) == l@.take(e as int));
    }
    if e > 0 {
        let mut b = e;
        while b > 0 && !is_white(l.get_char(b - 1))
            invariant
                0 <= b <= e <= n,
                n == l@.len(),
                trailing_word(l@.take(e as int)) == trailing_word(l@.take(b as int)) + l@.subrange(b as int, e as int),
            decreases b,
        {
            proof {
                let t = l@.take(b as int);
                assert(t.drop_last() =~= l@.take(b - 1));
                assert(t.last() == l@[b - 1]);
                assert(trailing_word(t) == trailing_word(l@.take(b - 1)).push(t.last()));
                assert(trailing_word(l@.take(b - 1)).push(t.last()) + l@.subrange(b as int, e as int) =~= trailing_word(
                    l@.take(b - 1),
                ) + l@.subrange(b - 1, e as int));
            }
            b = b - 1;
        }
        proof {
            assert(trailing_word(l@.take(b as int)) =~= Seq::<char>::empty());
            assert(Seq::<char>::empty() + l@.subrange(b as int, e as int) =~= l@.subrange(b as int, e as int));
        }
        let word = chars_of(l, b, e);
        let t = crate::text::trim(word.as_str());
        let mut pw = String::new();
        crate::scenarios::append_str(&mut pw, t);
        assert(pw@ =~= t@);
        out.push(pw);
        assert(out@[mid.len() as int] == pw);
    }
    assert(out@.len() == mid.len() + wd.len());
    assert forall|k: int| 0 <= k < ac.len() + wd.len() implies #[trigger] out@[before.len() + k]@ == (ac + wd)[k] by {
        if k < ac.len() {
            assert(out@[before.len() + k] == mid[before.len() + k]);
        }
    }
    assert forall|k: int| 0 <= k < before.len() implies #[trigger] out@[k] == before[k] by {
        assert(out@[k] == mid[k]);
    }
}

proof fn lemma_last_index(l: Seq<char>, c: char, p: int)
    requires
        0 <= p <= l.len(),
        forall|q: int| p <= q < l.len() ==> l[q] != c,
        p == 0 || l[p - 1] == c,
    ensures
        last_index_of(l, c) == if p == 0 { None } else { Some((p - 1) as nat) },
    decreases l.len(),
{
    if l.len() > p {
        assert(l.drop_last().len() == l.len() - 1);
        assert forall|q: int| p <= q < l.len() - 1 implies l.drop_last()[q] != c by {
            assert(l.drop_last()[q] == l[q]);
        }
        if p > 0 {
            assert(l.drop_last()[p - 1] == l[p - 1]);
        }
        lemma_last_index(l.drop_last(), c, p);
    } else if p > 0 {
        assert(l.last() == c);
    } else {
    }
}

/// Whether qBittorrent accepted a login: its answer starts with `ok`, in
/// any case.
pub open spec fn login_ok(body: Seq<char>) -> bool {
    let t = lowercase(body);
    t.len() >= 2 && t[0] == 'o' && t[1] == 'k'
}

/// Whether the answer to a login accepts it.
pub fn login_accepted(body: &str) -> (r: bool)
    ensures
        r == login_ok(body@),
{
    let t = crate::text::to_lowercase(body);
    let s = t.as_str();
    s.unicode_len() >= 2 && s.get_char(0) == 'o' && s.get_char(1) == 'k'
}

// ----- seeders -----

/// Transmission's status number of a torrent that is seeding.
pub const TR_STATUS_SEED: u64 = 6;

/// Whether a Transmission seeder is seeding: it has torrents, and each one's
/// status (a missing one read as 0) is seeding.
pub fn is_seeding(statuses: &[Option<u64>]) -> (r: bool)
    ensures
        r == (statuses@.len() > 0 && forall|k: int| 0 <= k < statuses@.len() ==> #[trigger] statuses@[k] == Some(6u64)),
{
    if statuses.len() == 0 {
        return false;
    }
    let mut k: usize = 0;
    while k < statuses.len()
        invariant
            0 <= k <= statuses@.len(),
            forall|j: int| 0 <= j < k ==> #[trigger] statuses@[j] == Some(6u64),
        decreases statuses@.len() - k,
    {
        match statuses[k] {
            Some(s) => if s != TR_STATUS_SEED {
                return false;
            },
            None => return false,
        }
        k = k + 1;
    }
    true
}

} // verus!
