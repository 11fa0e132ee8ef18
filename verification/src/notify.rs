//! The desktop application's download notifications: each poll of the
//! torrent list is compared with what the previous polls saw, and a torrent
//! that has just finished, or has just failed, is announced once.
use vstd::prelude::*;
use crate::scenarios::append_str;

verus! {

/// What a poll shows of a torrent's state.
pub struct TorrentStatus {
    pub finished: bool,
    pub is_error: bool,
    pub error: Option<String>,
}

/// A torrent of a poll: its id, its name if known, and its state if the
/// list had statistics for it.
pub struct TorrentObservation {
    pub id: usize,
    pub name: Option<String>,
    pub status: Option<TorrentStatus>,
}

/// A notification to show.
pub struct Notification {
    pub title: String,
    pub body: String,
}

/// A torrent of a poll as plain values.
pub struct ObservationView {
    pub id: usize,
    pub name: Option<Seq<char>>,
    pub status: Option<(bool, bool, Option<Seq<char>>)>,
}

pub open spec fn opt_view(s: Option<String>) -> Option<Seq<char>> {
    match s {
        Some(t) => Some(t@),
        None => None,
    }
}

impl View for TorrentObservation {
    type V = ObservationView;

    open spec fn view(&self) -> ObservationView {
        ObservationView {
            id: self.id,
            name: opt_view(self.name),
            status: match self.status {
                Some(st) => Some((st.finished, st.is_error, opt_view(st.error))),
                None => None,
            },
        }
    }
}

/// The torrent was finished in the poll.
pub open spec fn seen_finished(t: ObservationView) -> bool {
    match t.status {
        Some((f, _, _)) => f,
        None => false,
    }
}

/// The torrent had failed in the poll.
pub open spec fn seen_failed(t: ObservationView) -> bool {
    match t.status {
        Some((_, e, _)) => e,
        None => false,
    }
}

/// The views of a poll.
pub open spec fn observations(v: Seq<TorrentObservation>) -> Seq<ObservationView> {
    Seq::new(v.len(), |k: int| v[k]@)
}

/// What the monitor remembers: per torrent id, whether it was finished and
/// whether it had failed when last seen.
pub type Known = Seq<(usize, bool, bool)>;

/// Each id at most once.
pub open spec fn ids_distinct(s: Known) -> bool {
    forall|i: int, j: int| 0 <= i < j < s.len() ==> s[i].0 != s[j].0
}

/// Where `id` is remembered.
pub open spec fn find(s: Known, id: usize) -> Option<int> {
    if exists|i: int| 0 <= i < s.len() && s[i].0 == id {
        Some(choose|i: int| 0 <= i < s.len() && s[i].0 == id)
    } else {
        None
    }
}

/// `Download Complete`
pub open spec fn complete_title() -> Seq<char> {
    "Download Complete"@
}

/// `Download Failed`
pub open spec fn failed_title() -> Seq<char> {
    "Download Failed"@
}

/// The name shown for a torrent.
pub open spec fn shown_name(name: Option<Seq<char>>) -> Seq<char> {
    match name {
        Some(n) => n,
        None => "Unknown torrent"@,
    }
}

/// The message shown for a failure.
pub open spec fn shown_error(error: Option<Seq<char>>) -> Seq<char> {
    match error {
        Some(e) => e,
        None => "Unknown error"@,
    }
}

/// The notifications for one torrent of a poll: none for a torrent without
/// statistics or seen for the first time; else one when it has just
/// finished and one when it has just failed.
pub open spec fn notes_for(s: Known, t: ObservationView) -> Seq<(Seq<char>, Seq<char>)> {
    match t.status {
        None => Seq::empty(),
        Some((finished, is_error, error)) => match find(s, t.id) {
            None => Seq::empty(),
            Some(i) => {
                let name = shown_name(t.name);
                let done = if finished && !s[i].1 { seq![(complete_title(), name)] } else { Seq::empty() };
                let failed = if is_error && !s[i].2 {
                    seq![(failed_title(), name + ": "@ + shown_error(error))]
                } else {
                    Seq::empty()
                };
                done + failed
            },
        },
    }
}

/// What the monitor remembers after seeing one torrent.
pub open spec fn record(s: Known, t: ObservationView) -> Known {
    match t.status {
        None => s,
        Some((finished, is_error, _)) => match find(s, t.id) {
            Some(i) => s.update(i, (t.id, finished, is_error)),
            None => s.push((t.id, finished, is_error)),
        },
    }
}

/// Going through a poll in order: what is remembered and what is notified.
pub open spec fn poll(s: Known, obs: Seq<ObservationView>) -> (Known, Seq<(Seq<char>, Seq<char>)>)
    decreases obs.len(),
{
    if obs.len() == 0 {
        (s, Seq::empty())
    } else {
        let (m, n) = poll(s, obs.drop_last());
        (record(m, obs.last()), n + notes_for(m, obs.last()))
    }
}

/// `id` is the id of a torrent of the poll.
pub open spec fn in_poll(obs: Seq<ObservationView>, id: usize) -> bool {
    exists|k: int| 0 <= k < obs.len() && obs[k].id == id
}

/// The remembered torrents that are still in the poll, in order.
pub open spec fn still_listed(s: Known, obs: Seq<ObservationView>) -> Known
    decreases s.len(),
{
    if s.len() == 0 {
        s
    } else {
        let r = still_listed(s.drop_last(), obs);
        if in_poll(obs, s.last().0) {
            r.push(s.last())
        } else {
            r
        }
    }
}

/// The monitor of download notifications.
pub struct NotificationMonitor {
    known: Vec<(usize, bool, bool)>,
}

impl View for NotificationMonitor {
    type V = Known;

    closed spec fn view(&self) -> Known {
        self.known@
    }
}

proof fn lemma_find_at(s: Known, i: int)
    requires
        ids_distinct(s),
        0 <= i < s.len(),
    ensures
        find(s, s[i].0) == Some(i),
{
    let j = choose|j: int| 0 <= j < s.len() && s[j].0 == s[i].0;
    if j < i {
        assert(s[j].0 != s[i].0);
    } else if j > i {
        assert(s[i].0 != s[j].0);
    }
}

proof fn lemma_record_distinct(s: Known, t: ObservationView)
    requires
        ids_distinct(s),
    ensures
        ids_distinct(record(s, t)),
{
    match t.status {
        None => {},
        Some((finished, is_error, _)) => match find(s, t.id) {
            Some(i) => {
                let u = s.update(i, (t.id, finished, is_error));
                assert forall|a: int, b: int| 0 <= a < b < u.len() implies u[a].0 != u[b].0 by {
                    if a == i {
                        assert(s[b].0 != s[i].0);
                    } else if b == i {
                        assert(s[a].0 != s[i].0);
                    } else {
                        assert(s[a].0 != s[b].0);
                    }
                }
            },
            None => {
                let u = s.push((t.id, finished, is_error));
                assert forall|a: int, b: int| 0 <= a < b < u.len() implies u[a].0 != u[b].0 by {
                    if b == s.len() {
                        assert(s[a].0 != t.id);
                    } else {
                        assert(s[a].0 != s[b].0);
                    }
                }
            },
        },
    }
}

proof fn lemma_poll_distinct(s: Known, obs: Seq<ObservationView>)
    requires
        ids_distinct(s),
    ensures
        ids_distinct(poll(s, obs).0),
    decreases obs.len(),
{
    if obs.len() > 0 {
        lemma_poll_distinct(s, obs.drop_last());
        lemma_record_distinct(poll(s, obs.drop_last()).0, obs.last());
    }
}

impl NotificationMonitor {
    /// A monitor that has seen nothing yet.
    pub fn new() -> (m: NotificationMonitor)
        ensures
            m@ == Seq::<(usize, bool, bool)>::empty(),
    {
        NotificationMonitor { known: Vec::new() }
    }

    /// Whether the monitor's memory holds each id once.
    pub closed spec fn wf(&self) -> bool {
        ids_distinct(self.known@)
    }

    fn index_of(&self, id: usize) -> (r: Option<usize>)
        requires
            self.wf(),
        ensures
            match r {
                Some(i) => i < self@.len() && find(self@, id) == Some(i as int),
                None => find(self@, id) is None,
            },
    {
        let mut i: usize = 0;
        while i < self.known.len()
            invariant
                0 <= i <= self.known@.len(),
                self.wf(),
                forall|k: int| 0 <= k < i ==> self.known@[k].0 != id,
            decreases self.known@.len() - i,
        {
            if self.known[i].0 == id {
                proof {
                    lemma_find_at(self.known@, i as int);
                }
                return Some(i);
            }
            i = i + 1;
        }
        None
    }

    /// Takes in one poll of the torrent list: gives the notifications to
    /// show, in order, and remembers the state of each torrent of the poll,
    /// forgetting the torrents no longer listed.
    pub fn observe(&mut self, torrents: &[TorrentObservation]) -> (notes: Vec<Notification>)
        requires
            old(self).wf(),
        ensures
            final(self).wf(),
            final(self)@ == still_listed(poll(old(self)@, observations(torrents@)).0, observations(torrents@)),
            notes@.len() == poll(old(self)@, observations(torrents@)).1.len(),
            forall|k: int|
                0 <= k < notes@.len() ==> (#[trigger] notes@[k]).title@ == poll(old(self)@, observations(torrents@)).1[k].0
                    && notes@[k].body@ == poll(old(self)@, observations(torrents@)).1[k].1,
    {
        let ghost s0 = self@;
        let ghost obs = observations(torrents@);
        let mut notes: Vec<Notification> = Vec::new();
        let mut i: usize = 0;
        while i < torrents.len()
            invariant
                0 <= i <= torrents@.len(),
                obs == observations(torrents@),
                self.wf(),
                self@ == poll(s0, obs.take(i as int)).0,
                notes@.len() == poll(s0, obs.take(i as int)).1.len(),
                forall|k: int|
                    0 <= k < notes@.len() ==> (#[trigger] notes@[k]).title@ == poll(s0, obs.take(i as int)).1[k].0
                        && notes@[k].body@ == poll(s0, obs.take(i as int)).1[k].1,
            decreases torrents@.len() - i,
        {
            let t = &torrents[i];
            let ghost m = self@;
            let ghost pre = poll(s0, obs.take(i as int)).1;
            proof {
                assert(obs.take(i + 1).drop_last() =~= obs.take(i as int));
                assert(obs.take(i + 1).last() == t@);
                lemma_record_distinct(m, t@);
            }
            match &t.status {
                None => {},
                Some(st) => {
                    let pos = self.index_of(t.id);
                    match pos {
                        Some(p) => {
                            let was_finished = self.known[p].1;
                            let was_error = self.known[p].2;
                            if st.finished && !was_finished {
                                let mut body = String::new();
                                push_name(&mut body, &t.name);
                                let mut title = String::new();
                                append_str(&mut title, "Download Complete");
                                notes.push(Notification { title, body });
                            }
                            if st.is_error && !was_error {
                                let mut body = String::new();
                                push_name(&mut body, &t.name);
                                append_str(&mut body, ": ");
                                match &st.error {
                                    Some(e) => append_str(&mut body, e.as_str()),
                                    None => append_str(&mut body, "Unknown error"),
                                }
                                let mut title = String::new();
                                append_str(&mut title, "Download Failed");
                                notes.push(Notification { title, body });
                            }
                            self.known.set(p, (t.id, st.finished, st.is_error));
                        },
                        None => {
                            self.known.push((t.id, st.finished, st.is_error));
                        },
                    }
                },
            }
            proof {
                let new_notes = notes_for(m, t@);
                assert(poll(s0, obs.take(i + 1)).1 == pre + new_notes);
                assert forall|k: int| 0 <= k < notes@.len() implies (#[trigger] notes@[k]).title@ == (pre + new_notes)[k].0
                    && notes@[k].body@ == (pre + new_notes)[k].1 by {
                    reveal_strlit("Download Complete");
                    reveal_strlit("Download Failed");
                    reveal_strlit("Unknown error");
                    reveal_strlit(": ");
                }
                assert(self@ =~= record(m, t@));
            }
            i = i + 1;
        }
        proof {
            assert(obs.take(torrents@.len() as int) =~= obs);
        }
        self.keep_listed(torrents);
        notes
    }

    fn keep_listed(&mut self, torrents: &[TorrentObservation])
        requires
            old(self).wf(),
        ensures
            final(self).wf(),
            final(self)@ == still_listed(old(self)@, observations(torrents@)),
    {
        let ghost obs = observations(torrents@);
        let ghost s = self@;
        let mut out: Vec<(usize, bool, bool)> = Vec::new();
        let mut i: usize = 0;
        while i < self.known.len()
            invariant
                0 <= i <= self.known@.len(),
                self.known@ == s,
                ids_distinct(s),
                obs == observations(torrents@),
                out@ == still_listed(s.take(i as int), obs),
                forall|a: int| 0 <= a < out@.len() ==> exists|b: int| 0 <= b < i && (#[trigger] out@[a]) == s[b],
                forall|a: int, b: int| 0 <= a < b < out@.len() ==> out@[a].0 != out@[b].0,
            decreases self.known@.len() - i,
        {
            let e = self.known[i];
            let mut found = false;
            let mut k: usize = 0;
            while k < torrents.len() && !found
                invariant
                    0 <= k <= torrents@.len(),
                    obs == observations(torrents@),
                    found ==> in_poll(obs, e.0),
                    !found ==> forall|q: int| 0 <= q < k ==> obs[q].id != e.0,
                decreases torrents@.len() - k,
            {
                if torrents[k].id == e.0 {
                    found = true;
                    assert(obs[k as int].id == e.0);
                }
                k = k + 1;
            }
            proof {
                assert(s.take(i + 1).drop_last() =~= s.take(i as int));
                assert(s.take(i + 1).last() == e);
            }
            if found {
                let ghost before = out@;
                out.push(e);
                proof {
                    assert forall|a: int| 0 <= a < out@.len() implies exists|b: int| 0 <= b < i + 1 && (#[trigger] out@[a]) == s[b] by {
                        if a == before.len() {
                            assert(out@[a] == s[i as int]);
                        } else {
                            assert(out@[a] == before[a]);
                        }
                    }
                    assert forall|a: int, b: int| 0 <= a < b < out@.len() implies out@[a].0 != out@[b].0 by {
                        if b == before.len() {
                            assert(out@[a] == before[a]);
                            let c = choose|c: int| 0 <= c < i && before[a] == s[c];
                            assert(s[c].0 != s[i as int].0);
                        } else {
                            assert(out@[a] == before[a]);
                            assert(out@[b] == before[b]);
                        }
                    }
                }
            }
            i = i + 1;
        }
        proof {
            assert(s.take(s.len() as int) =~= s);
        }
        self.known = out;
    }
}

fn push_name(s: &mut String, name: &Option<String>)
    ensures
        final(s)@ == old(s)@ + shown_name(opt_view(*name)),
{
    match name {
        Some(n) => append_str(s, n.as_str()),
        None => {
            append_str(s, "Unknown torrent");
            proof {
                reveal_strlit("Unknown torrent");
            }
        },
    }
}

// ----- laws -----

/// A torrent seen for the first time is only remembered: nothing is shown
/// for it, whatever its state.
pub proof fn lemma_first_sight_silent(s: Known, t: ObservationView)
    requires
        find(s, t.id) is None,
    ensures
        notes_for(s, t) == Seq::<(Seq<char>, Seq<char>)>::empty(),
{
}

/// A completion is announced once: when a torrent was seen finished in one
/// poll, seeing it finished again in the next poll shows no second
/// `Download Complete` for it; likewise for a failure.
pub proof fn lemma_announced_once(s: Known, t1: ObservationView, t2: ObservationView)
    requires
        ids_distinct(s),
        t1.status is Some,
        t2.status is Some,
        t1.id == t2.id,
    ensures
        ({
            let after = still_listed(poll(s, seq![t1]).0, seq![t1]);
            let notes = notes_for(after, t2);
            &&& seen_finished(t1) ==> forall|k: int| 0 <= k < notes.len() ==> notes[k].0 != complete_title()
            &&& seen_failed(t1) ==> forall|k: int| 0 <= k < notes.len() ==> notes[k].0 != failed_title()
        }),
{
    let obs = seq![t1];
    assert(obs.drop_last() =~= Seq::<ObservationView>::empty());
    let m = record(s, t1);
    assert(poll(s, obs.drop_last()) == (s, Seq::<(Seq<char>, Seq<char>)>::empty()));
    assert(obs.last() == t1);
    assert(poll(s, obs).0 == m);
    lemma_record_distinct(s, t1);
    let (f1, e1, _) = t1.status->0;
    let after = still_listed(m, obs);
    lemma_poll_holds(s, obs, 0);
    assert(in_poll(obs, t1.id)) by {
        assert(obs[0].id == t1.id);
    }
    lemma_still_listed_keeps(m, obs, t1.id);
    let i = choose|i: int| 0 <= i < after.len() && after[i] == (t1.id, f1, e1);
    lemma_still_listed_distinct(m, obs);
    lemma_find_at(after, i);
    reveal_strlit("Download Complete");
    reveal_strlit("Download Failed");
    let notes = notes_for(after, t2);
    assert forall|k: int| 0 <= k < notes.len() implies (f1 ==> notes[k].0 != complete_title()) && (e1 ==> notes[k].0 != failed_title()) by {
        assert(complete_title() != failed_title()) by {
            assert(complete_title()[9] != failed_title()[9]);
        }
    }
}

proof fn lemma_still_listed_keeps(m: Known, obs: Seq<ObservationView>, id: usize)
    requires
        ids_distinct(m),
        in_poll(obs, id),
        find(m, id) is Some,
    ensures
        exists|i: int| 0 <= i < still_listed(m, obs).len() && still_listed(m, obs)[i] == m[find(m, id)->0],
    decreases m.len(),
{
    let j = find(m, id)->0;
    if j == m.len() - 1 {
        let r = still_listed(m.drop_last(), obs);
        assert(still_listed(m, obs)[r.len() as int] == m.last());
    } else {
        let d = m.drop_last();
        assert(d[j] == m[j]);
        assert(ids_distinct(d));
        lemma_find_at(d, j);
        lemma_still_listed_keeps(d, obs, id);
        let r = still_listed(d, obs);
        let i = choose|i: int| 0 <= i < r.len() && r[i] == d[find(d, id)->0];
        assert(still_listed(m, obs)[i] == r[i]);
    }
}

proof fn lemma_still_listed_distinct(m: Known, obs: Seq<ObservationView>)
    requires
        ids_distinct(m),
    ensures
        ids_distinct(still_listed(m, obs)),
        forall|a: int| 0 <= a < still_listed(m, obs).len() ==> m.contains(#[trigger] still_listed(m, obs)[a]),
    decreases m.len(),
{
    if m.len() > 0 {
        let d = m.drop_last();
        lemma_still_listed_distinct(d, obs);
        let r = still_listed(d, obs);
        let out = still_listed(m, obs);
        assert forall|a: int| 0 <= a < out.len() implies m.contains(#[trigger] out[a]) by {
            if a < r.len() {
                assert(out[a] == r[a]);
                assert(d.contains(r[a]));
                let c = choose|c: int| 0 <= c < d.len() && d[c] == r[a];
                assert(m[c] == d[c]);
            } else {
                assert(out[a] == m[m.len() - 1]);
            }
        }
        assert forall|a: int, b: int| 0 <= a < b < out.len() implies out[a].0 != out[b].0 by {
            if b < r.len() {
                assert(out[a] == r[a]);
                assert(out[b] == r[b]);
            } else {
                assert(out[a] == r[a]);
                assert(d.contains(r[a]));
                let c = choose|c: int| 0 <= c < d.len() && d[c] == r[a];
                assert(m[c].0 != m[m.len() - 1].0);
            }
        }
    }
}

/// After a poll the monitor remembers exactly the torrents of that poll that
/// had statistics, as they were (besides those remembered from before that
/// are still listed).
pub proof fn lemma_remembers_polled(s: Known, obs: Seq<ObservationView>, k: int)
    requires
        ids_distinct(s),
        0 <= k < obs.len(),
        obs[k].status is Some,
        forall|j: int| k < j < obs.len() ==> obs[j].id != obs[k].id,
    ensures
        ({
            let after = still_listed(poll(s, obs).0, obs);
            exists|i: int| 0 <= i < after.len() && after[i] == (obs[k].id, seen_finished(obs[k]), seen_failed(obs[k]))
        }),
    decreases obs.len(),
{
    let m = poll(s, obs).0;
    lemma_poll_distinct(s, obs);
    lemma_poll_holds(s, obs, k);
    assert(in_poll(obs, obs[k].id));
    lemma_still_listed_keeps(m, obs, obs[k].id);
}

proof fn lemma_poll_holds(s: Known, obs: Seq<ObservationView>, k: int)
    requires
        ids_distinct(s),
        0 <= k < obs.len(),
        obs[k].status is Some,
        forall|j: int| k < j < obs.len() ==> obs[j].id != obs[k].id,
    ensures
        find(poll(s, obs).0, obs[k].id) is Some,
        poll(s, obs).0[find(poll(s, obs).0, obs[k].id)->0] == (obs[k].id, seen_finished(obs[k]), seen_failed(obs[k])),
    decreases obs.len(),
{
    let d = obs.drop_last();
    let m = poll(s, d).0;
    lemma_poll_distinct(s, d);
    let t = obs.last();
    let id = obs[k].id;
    let u = record(m, t);
    lemma_record_distinct(m, t);
    assert(poll(s, obs).0 == u);
    if k == obs.len() - 1 {
        let (f, e, _) = t.status->0;
        match find(m, t.id) {
            Some(i) => {
                assert(u[i] == (t.id, f, e));
                lemma_find_at(u, i);
            },
            None => {
                assert(u[m.len() as int] == (t.id, f, e));
                lemma_find_at(u, m.len() as int);
            },
        }
    } else {
        assert forall|j: int| k < j < d.len() implies d[j].id != d[k].id by {
            assert(d[j] == obs[j]);
        }
        assert(d[k] == obs[k]);
        lemma_poll_holds(s, d, k);
        let p = find(m, id)->0;
        assert(t.id != id);
        match t.status {
            None => {},
            Some((f, e, _)) => match find(m, t.id) {
                Some(i) => {
                    assert(i != p);
                    assert(u[p] == m[p]);
                    lemma_find_at(u, p);
                },
                None => {
                    assert(u[p] == m[p]);
                    lemma_find_at(u, p);
                },
            },
        }
    }
}

} // verus!
