//! Chunked uploads: the chunks of each upload session are kept by number
//! until all have arrived, then handed out in order.
use vstd::prelude::*;
use std::collections::HashMap;
use vstd::string::StringExecFns;
use crate::text::{decimal, decimal_text, push_all, chars_to_string};

verus! {

broadcast use vstd::std_specs::hash::group_hash_axioms;

/// The chunks of one session, by number, and how many it will have.
struct UploadSessionData<I> {
    chunks: HashMap<usize, Vec<I>>,
    total_chunks: usize,
}

/// What a session holds: its chunks' contents by number, and its
/// announced number of chunks.
pub struct SessionView<I> {
    pub chunks: Map<usize, Seq<I>>,
    pub total_chunks: usize,
}

impl<I> UploadSessionData<I> {
    spec fn view(&self) -> SessionView<I> {
        SessionView {
            chunks: self.chunks@.map_values(|v: Vec<I>| v@),
            total_chunks: self.total_chunks,
        }
    }
}

/// The upload sessions in progress, by session id.
pub struct UploadSessionManager<I> {
    sessions: Vec<(String, UploadSessionData<I>)>,
}

/// Sessions of raw file bytes.
pub type LargeUploadSessionManager = UploadSessionManager<u8>;

/// The sessions a list holds, by id.
spec fn session_map<I>(s: Seq<(String, UploadSessionData<I>)>) -> Map<Seq<char>, SessionView<I>>
    decreases s.len(),
{
    if s.len() == 0 {
        Map::empty()
    } else {
        session_map(s.drop_last()).insert(s.last().0@, s.last().1.view())
    }
}

/// No two sessions of a list share an id.
spec fn ids_distinct<I>(s: Seq<(String, UploadSessionData<I>)>) -> bool {
    forall|i: int, j: int| 0 <= i < j < s.len() ==> (#[trigger] s[i]).0@ != (#[trigger] s[j]).0@
}

proof fn lemma_absent<I>(s: Seq<(String, UploadSessionData<I>)>, k: Seq<char>)
    requires
        forall|i: int| 0 <= i < s.len() ==> (#[trigger] s[i]).0@ != k,
    ensures
        !session_map(s).contains_key(k),
    decreases s.len(),
{
    if s.len() > 0 {
        assert(s.last() == s[s.len() - 1]);
        lemma_absent(s.drop_last(), k);
    }
}

proof fn lemma_lookup<I>(s: Seq<(String, UploadSessionData<I>)>, i: int)
    requires
        ids_distinct(s),
        0 <= i < s.len(),
    ensures
        session_map(s).contains_key(s[i].0@),
        session_map(s)[s[i].0@] == s[i].1.view(),
    decreases s.len(),
{
    if i < s.len() - 1 {
        assert(s.drop_last()[i] == s[i]);
        lemma_lookup(s.drop_last(), i);
        assert(s[i].0@ != s[s.len() - 1].0@);
    }
}

proof fn lemma_update<I>(s: Seq<(String, UploadSessionData<I>)>, i: int, x: (String, UploadSessionData<I>))
    requires
        ids_distinct(s),
        0 <= i < s.len(),
        x.0@ == s[i].0@,
    ensures
        ids_distinct(s.update(i, x)),
        session_map(s.update(i, x)) == session_map(s).insert(x.0@, x.1.view()),
    decreases s.len(),
{
    let t = s.update(i, x);
    assert forall|a: int, b: int| 0 <= a < b < t.len() implies (#[trigger] t[a]).0@ != (#[trigger] t[b]).0@ by {
        assert(s[a].0@ != s[b].0@);
    }
    if i == s.len() - 1 {
        assert(t.drop_last() =~= s.drop_last());
        assert(session_map(s).insert(x.0@, x.1.view()) =~= session_map(s.drop_last()).insert(x.0@, x.1.view()));
    } else {
        assert(t.drop_last() =~= s.drop_last().update(i, x));
        assert(ids_distinct(s.drop_last()));
        lemma_update(s.drop_last(), i, x);
        assert(s[i].0@ != s[s.len() - 1].0@);
        assert(session_map(t) =~= session_map(s).insert(x.0@, x.1.view()));
    }
}

proof fn lemma_remove<I>(s: Seq<(String, UploadSessionData<I>)>, i: int)
    requires
        ids_distinct(s),
        0 <= i < s.len(),
    ensures
        ids_distinct(s.remove(i)),
        session_map(s.remove(i)) == session_map(s).remove(s[i].0@),
    decreases s.len(),
{
    let t = s.remove(i);
    assert forall|a: int, b: int| 0 <= a < b < t.len() implies (#[trigger] t[a]).0@ != (#[trigger] t[b]).0@ by {
        let a0 = if a < i { a } else { a + 1 };
        let b0 = if b < i { b } else { b + 1 };
        assert(t[a] == s[a0]);
        assert(t[b] == s[b0]);
        assert(s[a0].0@ != s[b0].0@);
    }
    let k = s[i].0@;
    if i == s.len() - 1 {
        assert(t =~= s.drop_last());
        assert forall|j: int| 0 <= j < s.drop_last().len() implies (#[trigger] s.drop_last()[j]).0@ != k by {
            assert(s[j].0@ != s[i].0@);
        }
        lemma_absent(s.drop_last(), k);
        assert(session_map(t) =~= session_map(s).remove(k));
    } else {
        assert(t.drop_last() =~= s.drop_last().remove(i));
        assert(t.last() == s.last());
        assert(ids_distinct(s.drop_last()));
        assert(s.drop_last()[i] == s[i]);
        lemma_remove(s.drop_last(), i);
        assert(s[i].0@ != s[s.len() - 1].0@);
        assert(session_map(t) =~= session_map(s).remove(k));
    }
}

/// The sessions after chunk `n` of session `id` arrives with `data`: it
/// replaces a chunk of that number; a new session announces `total`, an
/// existing one keeps its number.
pub open spec fn with_chunk<I>(
    m: Map<Seq<char>, SessionView<I>>,
    id: Seq<char>,
    n: usize,
    data: Seq<I>,
    total: usize,
) -> Map<Seq<char>, SessionView<I>> {
    m.insert(
        id,
        if m.contains_key(id) {
            SessionView { chunks: m[id].chunks.insert(n, data), total_chunks: m[id].total_chunks }
        } else {
            SessionView { chunks: Map::<usize, Seq<I>>::empty().insert(n, data), total_chunks: total }
        },
    )
}

/// The sessions after the chunks `stores` (each a chunk number, its
/// contents and the announced number of chunks) arrive in turn for session
/// `id`.
pub open spec fn with_chunks<I>(
    m: Map<Seq<char>, SessionView<I>>,
    id: Seq<char>,
    stores: Seq<(usize, Seq<I>, usize)>,
) -> Map<Seq<char>, SessionView<I>>
    decreases stores.len(),
{
    if stores.len() == 0 {
        m
    } else {
        let (n, data, total) = stores.last();
        with_chunk(with_chunks(m, id, stores.drop_last()), id, n, data, total)
    }
}

/// Once chunks have arrived for a new session, it holds exactly the chunk
/// numbers that were sent (a number sent again replaces its chunk) and the
/// number of chunks its first chunk announced; no other session changes.
/// So it is complete when as many distinct numbers arrived as the first
/// chunk announced.
pub proof fn law_chunks_collected<I>(
    m: Map<Seq<char>, SessionView<I>>,
    id: Seq<char>,
    stores: Seq<(usize, Seq<I>, usize)>,
)
    requires
        !m.contains_key(id),
        stores.len() > 0,
    ensures
        with_chunks(m, id, stores).contains_key(id),
        with_chunks(m, id, stores)[id].chunks.dom() == Set::new(
            |k: usize| exists|i: int| 0 <= i < stores.len() && (#[trigger] stores[i]).0 == k,
        ),
        with_chunks(m, id, stores)[id].total_chunks == stores[0].2,
        with_chunks(m, id, stores).remove(id) == m,
    decreases stores.len(),
{
    let r = with_chunks(m, id, stores);
    let (n, data, total) = stores.last();
    let front = stores.drop_last();
    if front.len() == 0 {
        assert(with_chunks(m, id, front) == m);
        assert(stores[0] == stores.last());
        assert(r == with_chunk(m, id, n, data, total));
        assert(r[id].chunks.dom() =~= Set::new(
            |k: usize| exists|i: int| 0 <= i < stores.len() && (#[trigger] stores[i]).0 == k,
        )) by {
            assert forall|k: usize| r[id].chunks.dom().contains(k) implies exists|i: int|
                0 <= i < stores.len() && (#[trigger] stores[i]).0 == k by {
                assert(stores[0].0 == k);
            }
        }
        assert(r.remove(id) =~= m);
    } else {
        law_chunks_collected(m, id, front);
        let p = with_chunks(m, id, front);
        assert(r[id].chunks.dom() =~= Set::new(
            |k: usize| exists|i: int| 0 <= i < stores.len() && (#[trigger] stores[i]).0 == k,
        )) by {
            assert forall|k: usize| r[id].chunks.dom().contains(k) implies exists|i: int|
                0 <= i < stores.len() && (#[trigger] stores[i]).0 == k by {
                if k == n {
                    assert(stores[stores.len() - 1].0 == k);
                } else {
                    assert(p[id].chunks.dom().contains(k));
                    let i = choose|i: int| 0 <= i < front.len() && (#[trigger] front[i]).0 == k;
                    assert(stores[i] == front[i]);
                }
            }
            assert forall|k: usize| (exists|i: int| 0 <= i < stores.len() && (#[trigger] stores[i]).0 == k)
                implies r[id].chunks.dom().contains(k) by {
                let i = choose|i: int| 0 <= i < stores.len() && (#[trigger] stores[i]).0 == k;
                if i < front.len() {
                    assert(front[i] == stores[i]);
                }
            }
        }
        assert(front[0] == stores[0]);
        assert(r.remove(id) =~= p.remove(id));
    }
}

/// The contents of chunks `0..n`, one after the other.
pub open spec fn joined<I>(chunks: Map<usize, Seq<I>>, n: nat) -> Seq<I>
    decreases n,
{
    if n == 0 {
        Seq::empty()
    } else {
        joined(chunks, (n - 1) as nat) + chunks[(n - 1) as usize]
    }
}

/// The lowest chunk number below `n` that has not arrived.
pub open spec fn first_missing<I>(chunks: Map<usize, Seq<I>>, n: nat) -> Option<nat>
    decreases n,
{
    if n == 0 {
        None
    } else {
        match first_missing(chunks, (n - 1) as nat) {
            Some(k) => Some(k),
            None => if !chunks.contains_key((n - 1) as usize) {
                Some((n - 1) as nat)
            } else {
                None
            },
        }
    }
}

/// "Session <id> not found".
pub open spec fn not_found_text(id: Seq<char>) -> Seq<char> {
    "Session "@ + id + " not found"@
}

/// "Incomplete Upload: got <got>/<total> chunks".
pub open spec fn incomplete_text(got: nat, total: nat) -> Seq<char> {
    "Incomplete Upload: got "@ + decimal_text(got) + "/"@ + decimal_text(total) + " chunks"@
}

/// "Missing chunk <k> in session <id>".
pub open spec fn missing_text(k: nat, id: Seq<char>) -> Seq<char> {
    "Missing chunk "@ + decimal_text(k) + " in session "@ + id
}

/// "Session <id> not found for deletion".
pub open spec fn not_found_for_deletion_text(id: Seq<char>) -> Seq<char> {
    "Session "@ + id + " not found for deletion"@
}

impl<I: Copy> UploadSessionManager<I> {
    /// The sessions in progress, by id.
    pub closed spec fn view(&self) -> Map<Seq<char>, SessionView<I>> {
        session_map(self.sessions@)
    }

    /// No two sessions share an id.
    pub closed spec fn inv(&self) -> bool {
        ids_distinct(self.sessions@)
    }

    /// No sessions.
    pub fn new() -> (m: Self)
        ensures
            m.inv(),
            m@ == Map::<Seq<char>, SessionView<I>>::empty(),
    {
        UploadSessionManager { sessions: Vec::new() }
    }

    /// Where the session `id` stands in the list, if it is there.
    fn find(&self, id: &String) -> (r: Option<usize>)
        requires
            self.inv(),
        ensures
            match r {
                Some(i) => i < self.sessions@.len() && self.sessions@[i as int].0@ == id@,
                None => !self@.contains_key(id@),
            },
    {
        let mut i: usize = 0;
        while i < self.sessions.len()
            invariant
                0 <= i <= self.sessions@.len(),
                forall|j: int| 0 <= j < i ==> (#[trigger] self.sessions@[j]).0@ != id@,
            decreases self.sessions@.len() - i,
        {
            if self.sessions[i].0 == *id {
                return Some(i);
            }
            i = i + 1;
        }
        proof {
            lemma_absent(self.sessions@, id@);
        }
        None
    }

    /// Keeps chunk `chunk_number` of session `session_id`, replacing one of
    /// that number already there. A new session announces `total_chunks`;
    /// an existing one keeps its number.
    pub fn store_chunk(&mut self, session_id: &str, chunk_number: usize, chunk_data: Vec<I>, total_chunks: usize)
        requires
            old(self).inv(),
        ensures
            final(self).inv(),
            final(self)@ == with_chunk(old(self)@, session_id@, chunk_number, chunk_data@, total_chunks),
    {
        let key = session_id.to_owned();
        let ghost s0 = self.sessions@;
        match self.find(&key) {
            Some(i) => {
                proof {
                    lemma_lookup(s0, i as int);
                }
                let (k, mut data) = self.sessions.remove(i);
                let ghost old_chunks = data.chunks@;
                data.chunks.insert(chunk_number, chunk_data);
                proof {
                    assert(data.view().chunks =~= old_chunks.map_values(|v: Vec<I>| v@).insert(chunk_number, chunk_data@));
                }
                self.sessions.insert(i, (k, data));
                proof {
                    assert(self.sessions@ =~= s0.update(i as int, (k, data)));
                    lemma_update(s0, i as int, (k, data));
                }
            },
            None => {
                let mut chunks: HashMap<usize, Vec<I>> = HashMap::new();
                chunks.insert(chunk_number, chunk_data);
                let data = UploadSessionData { chunks, total_chunks };
                proof {
                    assert(data.view().chunks =~= Map::<usize, Seq<I>>::empty().insert(chunk_number, chunk_data@));
                }
                self.sessions.push((key, data));
                proof {
                    assert(self.sessions@.drop_last() =~= s0);
                    assert forall|a: int, b: int| 0 <= a < b < self.sessions@.len() implies (#[trigger] self.sessions@[a]).0@ != (#[trigger] self.sessions@[b]).0@ by {
                        if b == self.sessions@.len() - 1 {
                            if s0[a].0@ == session_id@ {
                                lemma_lookup(s0, a);
                            }
                        } else {
                            assert(s0[a].0@ != s0[b].0@);
                        }
                    }
                }
            },
        }
    }

    /// Whether every announced chunk of session `session_id` has arrived
    /// (false for an unknown session).
    pub fn is_upload_complete(&self, session_id: &str) -> (r: bool)
        requires
            self.inv(),
        ensures
            r == (self@.contains_key(session_id@) && self@[session_id@].chunks.len()
                == self@[session_id@].total_chunks),
    {
        let key = session_id.to_owned();
        match self.find(&key) {
            Some(i) => {
                proof {
                    lemma_lookup(self.sessions@, i as int);
                    assert(self.sessions@[i as int].1.chunks@.dom() =~= self@[session_id@].chunks.dom());
                }
                self.sessions[i].1.chunks.len() == self.sessions[i].1.total_chunks
            },
            None => false,
        }
    }

    /// The contents of all chunks of session `session_id`, in chunk order.
    /// Fails when the session is unknown, when the number of chunks that
    /// arrived differs from the announced number, or when one of the chunk
    /// numbers below the announced number is missing (the lowest is named).
    pub fn get_all_chunks(&self, session_id: &str) -> (r: Result<Vec<I>, String>)
        requires
            self.inv(),
        ensures
            !self@.contains_key(session_id@) ==> (r matches Err(e) && e@ == not_found_text(session_id@)),
            self@.contains_key(session_id@) ==> {
                let s = self@[session_id@];
                if s.chunks.len() != s.total_chunks {
                    r matches Err(e) && e@ == incomplete_text(s.chunks.len(), s.total_chunks as nat)
                } else {
                    match first_missing(s.chunks, s.total_chunks as nat) {
                        Some(k) => r matches Err(e) && e@ == missing_text(k, session_id@),
                        None => r matches Ok(v) && v@ == joined(s.chunks, s.total_chunks as nat),
                    }
                }
            },
    {
        proof {
            reveal_strlit("Session ");
            reveal_strlit(" not found");
            reveal_strlit("Incomplete Upload: got ");
            reveal_strlit("/");
            reveal_strlit(" chunks");
            reveal_strlit("Missing chunk ");
            reveal_strlit(" in session ");
        }
        let key = session_id.to_owned();
        let i = match self.find(&key) {
            Some(i) => i,
            None => {
                let mut m = "Session ".to_owned();
                m.append(session_id);
                m.append(" not found");
                return Err(m);
            },
        };
        proof {
            lemma_lookup(self.sessions@, i as int);
        }
        let data = &self.sessions[i].1;
        let ghost s = self@[session_id@];
        proof {
            assert(data.chunks@.dom() =~= s.chunks.dom());
        }
        let got = data.chunks.len();
        let total = data.total_chunks;
        if got != total {
            let mut m: Vec<char> = Vec::new();
            push_all(&mut m, &['I', 'n', 'c', 'o', 'm', 'p', 'l', 'e', 't', 'e', ' ', 'U', 'p', 'l', 'o', 'a', 'd', ':', ' ', 'g', 'o', 't', ' ']);
            push_all(&mut m, decimal(got as u128).as_slice());
            push_all(&mut m, &['/']);
            push_all(&mut m, decimal(total as u128).as_slice());
            push_all(&mut m, &[' ', 'c', 'h', 'u', 'n', 'k', 's']);
            proof {
                assert(m@ =~= incomplete_text(s.chunks.len(), s.total_chunks as nat));
            }
            return Err(chars_to_string(m.as_slice()));
        }
        let mut result: Vec<I> = Vec::new();
        let mut n: usize = 0;
        while n < total
            invariant
                0 <= n <= total == s.total_chunks,
                self@.contains_key(session_id@),
                s == self@[session_id@],
                s.chunks.len() == s.total_chunks,
                s.chunks == data.chunks@.map_values(|v: Vec<I>| v@),
                first_missing(s.chunks, n as nat) is None,
                result@ == joined(s.chunks, n as nat),
            decreases total - n,
        {
            match data.chunks.get(&n) {
                Some(chunk) => {
                    proof {
                        assert(s.chunks.contains_key(n));
                        assert(s.chunks[n] == chunk@);
                    }
                    let mut j: usize = 0;
                    let ghost before = result@;
                    while j < chunk.len()
                        invariant
                            0 <= j <= chunk@.len(),
                            result@ == before + chunk@.take(j as int),
                        decreases chunk@.len() - j,
                    {
                        result.push(chunk[j]);
                        j = j + 1;
                        proof {
                            assert(chunk@.take(j as int) =~= chunk@.take(j - 1).push(chunk@[j - 1]));
                        }
                    }
                    proof {
                        assert(chunk@.take(chunk@.len() as int) =~= chunk@);
                    }
                },
                None => {
                    proof {
                        assert(!s.chunks.contains_key(n));
                        assert(first_missing(s.chunks, (n + 1) as nat) == Some(n as nat));
                    }
                    let mut m: Vec<char> = Vec::new();
                    push_all(&mut m, &['M', 'i', 's', 's', 'i', 'n', 'g', ' ', 'c', 'h', 'u', 'n', 'k', ' ']);
                    push_all(&mut m, decimal(n as u128).as_slice());
                    push_all(&mut m, &[' ', 'i', 'n', ' ', 's', 'e', 's', 's', 'i', 'o', 'n', ' ']);
                    let mut e = chars_to_string(m.as_slice());
                    e.append(session_id);
                    proof {
                        reveal_strlit("Missing chunk ");
                        reveal_strlit(" in session ");
                        lemma_first_missing_stays(s.chunks, (n + 1) as nat, total as nat);
                        assert(e@ =~= missing_text(n as nat, session_id@));
                    }
                    return Err(e);
                },
            }
            n = n + 1;
        }
        Ok(result)
    }

    /// Keeps a chunk of an upload and, once the session holds as many
    /// chunks as it announced, hands back the whole upload in chunk order.
    /// Nothing comes back while chunks are still due; it fails when the
    /// count is reached but a chunk number below it is missing (the lowest
    /// is named).
    pub fn accept_chunk(&mut self, session_id: &str, chunk_number: usize, chunk_data: Vec<I>, total_chunks: usize) -> (r:
        Result<Option<Vec<I>>, String>)
        requires
            old(self).inv(),
        ensures
            final(self).inv(),
            final(self)@ == with_chunk(old(self)@, session_id@, chunk_number, chunk_data@, total_chunks),
            ({
                let s = final(self)@[session_id@];
                if s.chunks.len() != s.total_chunks {
                    r matches Ok(None)
                } else {
                    match first_missing(s.chunks, s.total_chunks as nat) {
                        Some(k) => r matches Err(e) && e@ == missing_text(k, session_id@),
                        None => r matches Ok(Some(v)) && v@ == joined(s.chunks, s.total_chunks as nat),
                    }
                }
            }),
    {
        self.store_chunk(session_id, chunk_number, chunk_data, total_chunks);
        if !self.is_upload_complete(session_id) {
            return Ok(None);
        }
        match self.get_all_chunks(session_id) {
            Ok(v) => Ok(Some(v)),
            Err(e) => Err(e),
        }
    }

    /// Ends session `session_id`; fails when there is no such session.
    pub fn clear_chunks(&mut self, session_id: &str) -> (r: Result<(), String>)
        requires
            old(self).inv(),
        ensures
            final(self).inv(),
            final(self)@ == old(self)@.remove(session_id@),
            r is Ok <==> old(self)@.contains_key(session_id@),
            r matches Err(e) ==> e@ == not_found_for_deletion_text(session_id@),
    {
        proof {
            reveal_strlit("Session ");
            reveal_strlit(" not found for deletion");
        }
        let key = session_id.to_owned();
        match self.find(&key) {
            Some(i) => {
                let ghost s0 = self.sessions@;
                proof {
                    lemma_lookup(s0, i as int);
                    lemma_remove(s0, i as int);
                }
                let _ = self.sessions.remove(i);
                Ok(())
            },
            None => {
                proof {
                    assert(old(self)@.remove(session_id@) =~= old(self)@);
                }
                let mut m = "Session ".to_owned();
                m.append(session_id);
                m.append(" not found for deletion");
                Err(m)
            },
        }
    }
}

proof fn lemma_first_missing_stays<I>(chunks: Map<usize, Seq<I>>, n: nat, m: nat)
    requires
        n <= m,
        first_missing(chunks, n) is Some,
    ensures
        first_missing(chunks, m) == first_missing(chunks, n),
    decreases m - n,
{
    if n < m {
        lemma_first_missing_stays(chunks, n, (m - 1) as nat);
    }
}

} // verus!
