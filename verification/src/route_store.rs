//! The file of stored sessions.

use crate::directory::num_at;
use crate::le::le;
use crate::le::lemma_le_len;
use crate::le::lemma_of_le_le;
use crate::le::lemma_pow256;
use crate::le::push_le;
use crate::le::read_le;
use crate::routes::expert_bound;
use crate::routes::experts_fit;
use crate::routes::row_bound;
use crate::routes::rows_view;
use crate::routes::Session;
use crate::routes::SessionView;
use crate::routes::MAX_SESSIONS;
use vstd::prelude::*;

verus! {

/// "MKRTS001" as a little-endian number.
pub const MAGIC: u64 = 0x3130_3053_5452_4b4d;

/// The version of the format.
pub const VERSION: u64 = 1;

/// Why bytes are no store.
#[derive(Debug, Clone, Copy, PartialEq, Eq, Structural)]
pub enum RouteError {
    Truncated,
    BadMagic,
    BadVersion,
    /// A record exceeds the layers or the experts that the header names.
    BadDims,
}

/// The pairs at `pos`.
pub open spec fn pairs_at(bytes: Seq<u8>, pos: int, n: nat) -> Seq<(u32, u32)> {
    Seq::new(
        n,
        |i: int| (num_at(bytes, pos + 8 * i, 4) as u32, num_at(bytes, pos + 8 * i + 4, 4) as u32),
    )
}

/// The row at `pos` and the position behind it, where the bytes hold it.
pub open spec fn row_read(bytes: Seq<u8>, pos: int) -> Option<(Seq<(u32, u32)>, int)> {
    let n = num_at(bytes, pos, 4);
    if pos + 4 > bytes.len() || pos + 4 + 8 * n > bytes.len() {
        None
    } else {
        Some((pairs_at(bytes, pos + 4, n), pos + 4 + 8 * n))
    }
}

/// `n` rows at `pos` and the position behind them.
pub open spec fn rows_read(bytes: Seq<u8>, pos: int, n: nat) -> Option<
    (Seq<Seq<(u32, u32)>>, int),
>
    decreases n,
{
    if n == 0 {
        Some((Seq::empty(), pos))
    } else {
        match rows_read(bytes, pos, (n - 1) as nat) {
            None => None,
            Some((rows, p)) => match row_read(bytes, p) {
                None => None,
                Some((row, q)) => Some((rows.push(row), q)),
            },
        }
    }
}

/// The session at `pos` and the position behind it, where the bytes hold it.
pub open spec fn session_read(bytes: Seq<u8>, pos: int) -> Option<(SessionView, int)> {
    if pos + 16 > bytes.len() {
        None
    } else {
        match rows_read(bytes, pos + 16, num_at(bytes, pos + 8, 4)) {
            None => None,
            Some((layers, end)) => Some(
                (SessionView { requests: num_at(bytes, pos, 8) as u64, layers }, end),
            ),
        }
    }
}

/// Up to `n` sessions at `pos`: those before the first that the bytes do not hold.
pub open spec fn sessions_read(bytes: Seq<u8>, pos: int, n: nat) -> Seq<SessionView>
    decreases n,
{
    if n == 0 {
        Seq::empty()
    } else {
        match session_read(bytes, pos) {
            None => Seq::empty(),
            Some((s, end)) => seq![s] + sessions_read(bytes, end, (n - 1) as nat),
        }
    }
}

/// What a store says.
pub ghost struct StoreView {
    pub n_layers: u32,
    pub n_experts: u32,
    pub sessions: Seq<SessionView>,
}

/// A session keeps within a number of layers and of experts.
pub open spec fn session_within(s: SessionView, n_layers: u32, n_experts: u32) -> bool {
    &&& s.layers.len() <= n_layers
    &&& forall|l: int, i: int|
        0 <= l < s.layers.len() && 0 <= i < s.layers[l].len() ==> (#[trigger] s.layers[l][i]).0
            < n_experts
}

/// Every session keeps within the layers and the experts of the store.
pub open spec fn dims_cover(s: StoreView) -> bool {
    forall|i: int|
        0 <= i < s.sessions.len() ==> session_within(
            #[trigger] s.sessions[i],
            s.n_layers,
            s.n_experts,
        )
}

/// What bytes say of a store: the header has to be whole, the records up to the first
/// that is not count, and those have to keep within the header's dimensions.
pub open spec fn store_read(bytes: Seq<u8>) -> Result<StoreView, RouteError> {
    if bytes.len() < 8 {
        Err(RouteError::Truncated)
    } else if num_at(bytes, 0, 8) != MAGIC {
        Err(RouteError::BadMagic)
    } else if bytes.len() < 12 {
        Err(RouteError::Truncated)
    } else if num_at(bytes, 8, 4) != VERSION {
        Err(RouteError::BadVersion)
    } else if bytes.len() < 24 {
        Err(RouteError::Truncated)
    } else {
        let s = StoreView {
            n_layers: num_at(bytes, 12, 4) as u32,
            n_experts: num_at(bytes, 16, 4) as u32,
            sessions: sessions_read(bytes, 28, num_at(bytes, 20, 4)),
        };
        if dims_cover(s) {
            Ok(s)
        } else {
            Err(RouteError::BadDims)
        }
    }
}

/// The stored sessions of one model.
#[derive(Debug)]
pub struct RouteStore {
    pub n_layers: u32,
    pub n_experts: u32,
    pub sessions: Vec<Session>,
}

/// The views of sessions.
pub open spec fn sessions_view(s: Seq<Session>) -> Seq<SessionView> {
    Seq::new(s.len(), |i: int| s[i]@)
}

impl View for RouteStore {
    type V = StoreView;

    open spec fn view(&self) -> StoreView {
        StoreView {
            n_layers: self.n_layers,
            n_experts: self.n_experts,
            sessions: sessions_view(self.sessions@),
        }
    }
}

fn read_row(bytes: &[u8], pos: usize) -> (r: Option<(Vec<(u32, u32)>, usize)>)
    requires
        pos <= bytes@.len(),
    ensures
        match r {
            None => row_read(bytes@, pos as int) is None,
            Some((row, end)) => row_read(bytes@, pos as int) == Some((row@, end as int)) && pos
                <= end <= bytes@.len(),
        },
{
    let len: usize = bytes.len();
    if len - pos < 4 {
        return None;
    }
    let n: u64 = read_le(bytes, pos, 4);
    proof {
        lemma_pow256();
    }
    if 8 * n > (len - pos - 4) as u64 {
        return None;
    }
    let count: usize = n as usize;
    let mut row: Vec<(u32, u32)> = Vec::new();
    for i in 0..count
        invariant
            len == bytes@.len(),
            pos + 4 + 8 * count <= len,
            row@ == pairs_at(bytes@, pos + 4, i as nat),
    {
        proof {
            lemma_pow256();
        }
        let e: u32 = read_le(bytes, pos + 4 + 8 * i, 4) as u32;
        let c: u32 = read_le(bytes, pos + 4 + 8 * i + 4, 4) as u32;
        row.push((e, c));
        proof {
            assert(row@ =~= pairs_at(bytes@, pos + 4, (i + 1) as nat));
        }
    }
    Some((row, pos + 4 + 8 * count))
}

fn read_rows(bytes: &[u8], pos: usize, n: u32) -> (r: Option<(Vec<Vec<(u32, u32)>>, usize)>)
    requires
        pos <= bytes@.len(),
    ensures
        match r {
            None => rows_read(bytes@, pos as int, n as nat) is None,
            Some((rows, end)) => rows_read(bytes@, pos as int, n as nat) == Some(
                (rows_view(rows@), end as int),
            ) && pos <= end <= bytes@.len(),
        },
{
    let mut rows: Vec<Vec<(u32, u32)>> = Vec::new();
    let mut p: usize = pos;
    proof {
        assert(rows_view(rows@) =~= Seq::<Seq<(u32, u32)>>::empty());
    }
    for i in 0..n
        invariant
            pos <= p <= bytes@.len(),
            rows_read(bytes@, pos as int, i as nat) == Some((rows_view(rows@), p as int)),
    {
        match read_row(bytes, p) {
            None => {
                proof {
                    lemma_rows_none(bytes@, pos as int, (i + 1) as nat, n as nat);
                }
                return None;
            },
            Some((row, end)) => {
                let ghost before = rows@;
                let ghost rv = row@;
                rows.push(row);
                proof {
                    assert(rows_view(rows@) =~= rows_view(before).push(rv));
                }
                p = end;
            },
        }
    }
    Some((rows, p))
}

proof fn lemma_rows_none(bytes: Seq<u8>, pos: int, i: nat, n: nat)
    requires
        i <= n,
        rows_read(bytes, pos, i) is None,
    ensures
        rows_read(bytes, pos, n) is None,
    decreases n,
{
    if i < n {
        lemma_rows_none(bytes, pos, i, (n - 1) as nat);
    }
}

fn read_session(bytes: &[u8], pos: usize) -> (r: Option<(Session, usize)>)
    requires
        pos <= bytes@.len(),
    ensures
        match r {
            None => session_read(bytes@, pos as int) is None,
            Some((s, end)) => session_read(bytes@, pos as int) == Some((s@, end as int)) && pos
                <= end <= bytes@.len(),
        },
{
    if bytes.len() - pos < 16 {
        return None;
    }
    proof {
        lemma_pow256();
    }
    let requests: u64 = read_le(bytes, pos, 8);
    let n: u32 = read_le(bytes, pos + 8, 4) as u32;
    match read_rows(bytes, pos + 16, n) {
        None => None,
        Some((layers, end)) => Some((Session { requests, layers }, end)),
    }
}

fn within(s: &Session, n_layers: u32, n_experts: u32) -> (yes: bool)
    ensures
        yes == session_within(s@, n_layers, n_experts),
{
    if s.layers.len() as u64 > n_layers as u64 {
        return false;
    }
    for l in 0..s.layers.len()
        invariant
            forall|k: int, i: int|
                0 <= k < l && 0 <= i < s@.layers[k].len() ==> (#[trigger] s@.layers[k][i]).0
                    < n_experts,
    {
        let row: &Vec<(u32, u32)> = &s.layers[l];
        proof {
            assert(row@ == s@.layers[l as int]);
        }
        for i in 0..row.len()
            invariant
                l < s.layers@.len(),
                row@ == s@.layers[l as int],
                forall|j: int| 0 <= j < i ==> (#[trigger] s@.layers[l as int][j]).0 < n_experts,
        {
            if row[i].0 >= n_experts {
                proof {
                    assert(s@.layers[l as int][i as int].0 >= n_experts);
                }
                return false;
            }
        }
    }
    true
}

impl RouteStore {
    /// A store without sessions.
    pub fn empty() -> (s: RouteStore)
        ensures
            s@ == (StoreView { n_layers: 0, n_experts: 0, sessions: Seq::empty() }),
    {
        let s: RouteStore = RouteStore { n_layers: 0, n_experts: 0, sessions: Vec::new() };
        proof {
            assert(s@.sessions =~= Seq::<SessionView>::empty());
        }
        s
    }

    /// Reads a store. Records from the first that the bytes do not hold whole are left
    /// out; a bad header is an error, and so is a record beyond the header's dimensions.
    pub fn load(bytes: &[u8]) -> (r: Result<RouteStore, RouteError>)
        ensures
            match r {
                Ok(s) => store_read(bytes@) == Ok::<StoreView, RouteError>(s@),
                Err(e) => store_read(bytes@) == Err::<StoreView, RouteError>(e),
            },
    {
        let len: usize = bytes.len();
        if len < 8 {
            return Err(RouteError::Truncated);
        }
        if read_le(bytes, 0, 8) != MAGIC {
            return Err(RouteError::BadMagic);
        }
        if len < 12 {
            return Err(RouteError::Truncated);
        }
        if read_le(bytes, 8, 4) != VERSION {
            return Err(RouteError::BadVersion);
        }
        if len < 24 {
            return Err(RouteError::Truncated);
        }
        proof {
            lemma_pow256();
        }
        let n_layers: u32 = read_le(bytes, 12, 4) as u32;
        let n_experts: u32 = read_le(bytes, 16, 4) as u32;
        let n: u32 = read_le(bytes, 20, 4) as u32;
        let ghost want = sessions_read(bytes@, 28, n as nat);
        let mut sessions: Vec<Session> = Vec::new();
        proof {
            assert(sessions_view(sessions@) =~= Seq::<SessionView>::empty());
            assert(Seq::<SessionView>::empty() + want =~= want);
            if len < 28 {
                assert(session_read(bytes@, 28) is None);
            }
        }
        if len >= 28 {
            let mut p: usize = 28;
            let mut left: u32 = n;
            let mut whole: bool = true;
            while left > 0 && whole
                invariant
                    p <= bytes@.len(),
                    whole ==> want == sessions_view(sessions@) + sessions_read(
                        bytes@,
                        p as int,
                        left as nat,
                    ),
                    !whole ==> want == sessions_view(sessions@),
                decreases left,
            {
                match read_session(bytes, p) {
                    None => {
                        whole = false;
                        proof {
                            assert(sessions_view(sessions@) + Seq::<SessionView>::empty()
                                =~= sessions_view(sessions@));
                        }
                    },
                    Some((s, end)) => {
                        let ghost before = sessions@;
                        let ghost sv = s@;
                        sessions.push(s);
                        proof {
                            assert(sessions_view(sessions@) =~= sessions_view(before).push(sv));
                            let rest = sessions_read(bytes@, end as int, (left - 1) as nat);
                            assert(sessions_view(before) + (seq![sv] + rest) =~= sessions_view(
                                sessions@,
                            ) + rest);
                        }
                        p = end;
                    },
                }
                left -= 1;
            }
            proof {
                if whole {
                    assert(sessions_view(sessions@) + Seq::<SessionView>::empty()
                        =~= sessions_view(sessions@));
                }
            }
        }
        let store: RouteStore = RouteStore { n_layers, n_experts, sessions };
        for i in 0..store.sessions.len()
            invariant
                store@.n_layers == n_layers,
                store@.n_experts == n_experts,
                forall|j: int|
                    0 <= j < i ==> session_within(
                        #[trigger] store@.sessions[j],
                        n_layers,
                        n_experts,
                    ),
                store_read(bytes@) == (if dims_cover(store@) {
                    Ok::<StoreView, RouteError>(store@)
                } else {
                    Err(RouteError::BadDims)
                }),
        {
            proof {
                assert(store@.sessions[i as int] == store.sessions@[i as int]@);
            }
            if !within(&store.sessions[i], n_layers, n_experts) {
                return Err(RouteError::BadDims);
            }
        }
        Ok(store)
    }
}

/// A row as bytes.
pub open spec fn pairs_bytes(row: Seq<(u32, u32)>) -> Seq<u8>
    decreases row.len(),
{
    if row.len() == 0 {
        Seq::empty()
    } else {
        pairs_bytes(row.drop_last()) + le(row.last().0 as nat, 4) + le(row.last().1 as nat, 4)
    }
}

/// A row behind its length.
pub open spec fn row_bytes(row: Seq<(u32, u32)>) -> Seq<u8> {
    le(row.len(), 4) + pairs_bytes(row)
}

/// Rows, one behind the other.
pub open spec fn rows_bytes(rows: Seq<Seq<(u32, u32)>>) -> Seq<u8>
    decreases rows.len(),
{
    if rows.len() == 0 {
        Seq::empty()
    } else {
        rows_bytes(rows.drop_last()) + row_bytes(rows.last())
    }
}

/// A session record.
pub open spec fn session_bytes(s: SessionView) -> Seq<u8> {
    le(s.requests as nat, 8) + le(s.layers.len(), 4) + le(expert_bound(s.layers) as nat, 4)
        + rows_bytes(s.layers)
}

/// Session records, one behind the other.
pub open spec fn sessions_bytes(s: Seq<SessionView>) -> Seq<u8>
    decreases s.len(),
{
    if s.len() == 0 {
        Seq::empty()
    } else {
        sessions_bytes(s.drop_last()) + session_bytes(s.last())
    }
}

/// The header of a store.
pub open spec fn header_bytes(n_layers: u32, n_experts: u32, n: nat) -> Seq<u8> {
    le(MAGIC as nat, 8) + le(VERSION as nat, 4) + le(n_layers as nat, 4) + le(n_experts as nat, 4)
        + le(n, 4) + le(0, 4)
}

/// A store as bytes.
pub open spec fn store_bytes(s: StoreView) -> Seq<u8> {
    header_bytes(s.n_layers, s.n_experts, s.sessions.len()) + sessions_bytes(s.sessions)
}

/// The counts of a session fit the fields of its record.
pub open spec fn session_fits(s: SessionView) -> bool {
    &&& s.layers.len() <= u32::MAX
    &&& experts_fit(s.layers)
    &&& forall|l: int| 0 <= l < s.layers.len() ==> (#[trigger] s.layers[l]).len() <= u32::MAX
}

/// The counts of a store fit the fields of its file.
pub open spec fn store_fits(s: StoreView) -> bool {
    &&& s.sessions.len() <= u32::MAX
    &&& forall|i: int| 0 <= i < s.sessions.len() ==> session_fits(#[trigger] s.sessions[i])
}

fn push_row(out: &mut Vec<u8>, row: &Vec<(u32, u32)>)
    requires
        row@.len() <= u32::MAX,
    ensures
        final(out)@ == old(out)@ + row_bytes(row@),
{
    let ghost start = out@;
    push_le(out, row.len() as u64, 4);
    proof {
        assert(row@.take(0) =~= Seq::<(u32, u32)>::empty());
        assert(out@ =~= start + (le(row@.len(), 4) + pairs_bytes(row@.take(0))));
    }
    for i in 0..row.len()
        invariant
            out@ == start + (le(row@.len(), 4) + pairs_bytes(row@.take(i as int))),
    {
        push_le(out, row[i].0 as u64, 4);
        push_le(out, row[i].1 as u64, 4);
        proof {
            assert(row@.take(i + 1).drop_last() =~= row@.take(i as int));
            assert(out@ =~= start + (le(row@.len(), 4) + pairs_bytes(row@.take(i + 1))));
        }
    }
    proof {
        assert(row@.take(row@.len() as int) =~= row@);
    }
}

fn push_session(out: &mut Vec<u8>, s: &Session)
    requires
        session_fits(s@),
    ensures
        final(out)@ == old(out)@ + session_bytes(s@),
{
    let ghost start = out@;
    push_le(out, s.requests, 8);
    push_le(out, s.layers.len() as u64, 4);
    push_le(out, s.n_experts() as u64, 4);
    let ghost head = le(s.requests as nat, 8) + le(s@.layers.len(), 4) + le(
        expert_bound(s@.layers) as nat,
        4,
    );
    let ghost all = s@.layers;
    proof {
        assert(all.take(0) =~= Seq::<Seq<(u32, u32)>>::empty());
        assert(out@ =~= start + (head + rows_bytes(all.take(0))));
    }
    for l in 0..s.layers.len()
        invariant
            all == rows_view(s.layers@),
            all == s@.layers,
            session_fits(s@),
            out@ == start + (head + rows_bytes(all.take(l as int))),
    {
        proof {
            assert(all[l as int] == s.layers@[l as int]@);
            assert(all[l as int].len() <= u32::MAX);
        }
        push_row(out, &s.layers[l]);
        proof {
            assert(all.take(l + 1).drop_last() =~= all.take(l as int));
            assert(all.take(l + 1).last() == all[l as int]);
            assert(out@ =~= start + (head + rows_bytes(all.take(l + 1))));
        }
    }
    proof {
        assert(all.take(all.len() as int) =~= all);
    }
}

/// The most recent sessions up to the limit.
pub open spec fn capped(s: Seq<SessionView>) -> Seq<SessionView> {
    if s.len() > 32 {
        s.skip(s.len() - 32)
    } else {
        s
    }
}

/// The greatest number of layers of the sessions.
pub open spec fn most_layers(s: Seq<SessionView>) -> int
    decreases s.len(),
{
    if s.len() == 0 {
        0
    } else {
        let before = most_layers(s.drop_last());
        if s.last().layers.len() > before {
            s.last().layers.len() as int
        } else {
            before
        }
    }
}

/// One above the highest expert of the sessions.
pub open spec fn most_experts(s: Seq<SessionView>) -> int
    decreases s.len(),
{
    if s.len() == 0 {
        0
    } else {
        let before = most_experts(s.drop_last());
        if expert_bound(s.last().layers) > before {
            expert_bound(s.last().layers)
        } else {
            before
        }
    }
}

/// A store with a session added, the oldest dropped past the limit, and the dimensions of
/// what is stored.
pub open spec fn appended(s: StoreView, session: SessionView) -> StoreView {
    let kept = capped(s.sessions.push(session));
    StoreView {
        n_layers: most_layers(kept) as u32,
        n_experts: most_experts(kept) as u32,
        sessions: kept,
    }
}

/// The store that a file holds; an empty one where it holds none.
pub open spec fn store_or_empty(file: Option<Seq<u8>>) -> StoreView {
    match file {
        None => StoreView { n_layers: 0, n_experts: 0, sessions: Seq::empty() },
        Some(b) => match store_read(b) {
            Ok(s) => s,
            Err(_) => StoreView { n_layers: 0, n_experts: 0, sessions: Seq::empty() },
        },
    }
}

impl RouteStore {
    /// The bytes of a store.
    pub fn to_bytes(&self) -> (out: Vec<u8>)
        requires
            store_fits(self@),
        ensures
            out@ == store_bytes(self@),
    {
        let mut out: Vec<u8> = Vec::new();
        push_le(&mut out, MAGIC, 8);
        push_le(&mut out, VERSION, 4);
        push_le(&mut out, self.n_layers as u64, 4);
        push_le(&mut out, self.n_experts as u64, 4);
        push_le(&mut out, self.sessions.len() as u64, 4);
        push_le(&mut out, 0, 4);
        let ghost head = header_bytes(self.n_layers, self.n_experts, self@.sessions.len());
        let ghost all = self@.sessions;
        proof {
            assert(all.take(0) =~= Seq::<SessionView>::empty());
            assert(out@ =~= head + sessions_bytes(all.take(0)));
        }
        for i in 0..self.sessions.len()
            invariant
                store_fits(self@),
                all == self@.sessions,
                all == sessions_view(self.sessions@),
                out@ == head + sessions_bytes(all.take(i as int)),
        {
            proof {
                assert(all[i as int] == self.sessions@[i as int]@);
                assert(session_fits(all[i as int]));
            }
            push_session(&mut out, &self.sessions[i]);
            proof {
                assert(all.take(i + 1).drop_last() =~= all.take(i as int));
                assert(all.take(i + 1).last() == all[i as int]);
                assert(out@ =~= head + sessions_bytes(all.take(i + 1)));
            }
        }
        proof {
            assert(all.take(all.len() as int) =~= all);
        }
        out
    }

    /// Adds a session; the oldest are dropped past the limit, and the dimensions are those
    /// of the sessions that stay.
    pub fn push(&mut self, session: Session)
        requires
            session_fits(session@),
            forall|i: int|
                0 <= i < old(self)@.sessions.len() ==> session_fits(
                    #[trigger] old(self)@.sessions[i],
                ),
        ensures
            final(self)@ == appended(old(self)@, session@),
    {
        let ghost before = self.sessions@;
        let ghost sv = session@;
        let ghost was = self@.sessions;
        self.sessions.push(session);
        let ghost full = sessions_view(self.sessions@);
        proof {
            assert(full =~= sessions_view(before).push(sv));
        }
        let len: usize = self.sessions.len();
        if len > MAX_SESSIONS {
            let kept: Vec<Session> = self.sessions.split_off(len - MAX_SESSIONS);
            proof {
                assert(sessions_view(kept@) =~= full.skip(len - 32));
            }
            self.sessions = kept;
        }
        let ghost kept = sessions_view(self.sessions@);
        proof {
            lemma_capped_fit(was, sv);
            assert(kept == capped(was.push(sv)));
            assert(kept.take(0) =~= Seq::<SessionView>::empty());
        }
        let mut n_layers: u32 = 0;
        let mut n_experts: u32 = 0;
        for i in 0..self.sessions.len()
            invariant
                kept == sessions_view(self.sessions@),
                forall|k: int| 0 <= k < kept.len() ==> session_fits(#[trigger] kept[k]),
                n_layers == most_layers(kept.take(i as int)),
                n_experts == most_experts(kept.take(i as int)),
        {
            proof {
                assert(kept[i as int] == self.sessions@[i as int]@);
                assert(session_fits(kept[i as int]));
                assert(kept.take(i + 1).drop_last() =~= kept.take(i as int));
                assert(kept.take(i + 1).last() == kept[i as int]);
            }
            let l: u32 = self.sessions[i].layers.len() as u32;
            let e: u32 = self.sessions[i].n_experts();
            if l > n_layers {
                n_layers = l;
            }
            if e > n_experts {
                n_experts = e;
            }
        }
        self.n_layers = n_layers;
        self.n_experts = n_experts;
        proof {
            assert(kept.take(kept.len() as int) =~= kept);
        }
    }

    /// Adds a session to the store of a file, given by its bytes where it can be read:
    /// the new bytes of the file and the number of sessions in it.
    pub fn append(file: Option<&[u8]>, session: Session) -> (r: (Vec<u8>, usize))
        requires
            session_fits(session@),
        ensures
            ({
                let store = appended(
                    store_or_empty(
                        match file {
                            Some(b) => Some(b@),
                            None => None,
                        },
                    ),
                    session@,
                );
                &&& r.0@ == store_bytes(store)
                &&& r.1 == store.sessions.len()
            }),
    {
        let mut store: RouteStore = match file {
            None => RouteStore::empty(),
            Some(b) => match RouteStore::load(b) {
                Ok(s) => s,
                Err(_) => RouteStore::empty(),
            },
        };
        proof {
            match file {
                Some(b) => lemma_read_fits(b@),
                None => {},
            }
        }
        let ghost before = store@;
        let ghost sv = session@;
        store.push(session);
        proof {
            lemma_capped_fit(before.sessions, sv);
        }
        (store.to_bytes(), store.sessions.len())
    }
}

/// The sessions that stay fit.
proof fn lemma_capped_fit(s: Seq<SessionView>, session: SessionView)
    requires
        session_fits(session),
        forall|i: int| 0 <= i < s.len() ==> session_fits(#[trigger] s[i]),
    ensures
        forall|i: int|
            0 <= i < capped(s.push(session)).len() ==> session_fits(
                #[trigger] capped(s.push(session))[i],
            ),
        capped(s.push(session)).len() <= 32,
{
    let all = s.push(session);
    assert forall|i: int| 0 <= i < capped(all).len() implies session_fits(
        #[trigger] capped(all)[i],
    ) by {
        let k = if all.len() > 32 {
            i + all.len() - 32
        } else {
            i
        };
        assert(capped(all)[i] == all[k]);
        if k < s.len() {
            assert(session_fits(s[k]));
        }
    }
}

/// The rows of a file are no longer than the fields of a file can say.
proof fn lemma_rows_fit(bytes: Seq<u8>, pos: int, n: nat)
    requires
        0 <= pos,
        rows_read(bytes, pos, n) is Some,
    ensures
        pos <= rows_read(bytes, pos, n)->Some_0.1,
        forall|l: int|
            0 <= l < rows_read(bytes, pos, n)->Some_0.0.len() ==> (#[trigger] rows_read(
                bytes,
                pos,
                n,
            )->Some_0.0[l]).len() <= u32::MAX,
    decreases n,
{
    if n > 0 {
        lemma_rows_fit(bytes, pos, (n - 1) as nat);
        let (rows, p) = rows_read(bytes, pos, (n - 1) as nat)->Some_0;
        lemma_num_bound(bytes, p);
    }
}

proof fn lemma_sessions_fit(bytes: Seq<u8>, pos: int, n: nat)
    requires
        0 <= pos,
    ensures
        sessions_read(bytes, pos, n).len() <= n,
        forall|i: int, l: int|
            0 <= i < sessions_read(bytes, pos, n).len() && 0 <= l < sessions_read(
                bytes,
                pos,
                n,
            )[i].layers.len() ==> (#[trigger] sessions_read(bytes, pos, n)[i].layers[l]).len()
                <= u32::MAX,
    decreases n,
{
    if n > 0 {
        match session_read(bytes, pos) {
            None => {},
            Some((s, end)) => {
                lemma_rows_fit(bytes, pos + 16, num_at(bytes, pos + 8, 4));
                lemma_sessions_fit(bytes, end, (n - 1) as nat);
                let rest = sessions_read(bytes, end, (n - 1) as nat);
                let all = sessions_read(bytes, pos, n);
                assert forall|i: int, l: int|
                    0 <= i < all.len() && 0 <= l < all[i].layers.len() implies (
                #[trigger] all[i].layers[l]).len() <= u32::MAX by {
                    if i > 0 {
                        assert(all[i] == rest[i - 1]);
                        assert(rest[i - 1].layers[l].len() <= u32::MAX);
                    } else {
                        assert(all[0] == s);
                    }
                }
            },
        }
    }
}

/// What is read fits what can be written.
proof fn lemma_read_fits(bytes: Seq<u8>)
    ensures
        store_read(bytes) matches Ok(s) ==> store_fits(s),
{
    match store_read(bytes) {
        Ok(s) => {
            lemma_sessions_fit(bytes, 28, num_at(bytes, 20, 4));
            lemma_num_bound(bytes, 20);
            assert forall|i: int| 0 <= i < s.sessions.len() implies session_fits(
                #[trigger] s.sessions[i],
            ) by {
                assert(session_within(s.sessions[i], s.n_layers, s.n_experts));
            }
        },
        Err(_) => {},
    }
}

/// A number of four bytes.
proof fn lemma_num_bound(bytes: Seq<u8>, pos: int)
    requires
        0 <= pos,
        pos + 4 <= bytes.len(),
    ensures
        num_at(bytes, pos, 4) <= u32::MAX,
{
    lemma_pow256();
    crate::le::lemma_le_of_le(bytes.subrange(pos, pos + 4));
}

proof fn lemma_pairs_len(row: Seq<(u32, u32)>)
    ensures
        pairs_bytes(row).len() == 8 * row.len(),
    decreases row.len(),
{
    if row.len() > 0 {
        lemma_pairs_len(row.drop_last());
        lemma_le_len(row.last().0 as nat, 4);
        lemma_le_len(row.last().1 as nat, 4);
    }
}

proof fn lemma_pair(row: Seq<(u32, u32)>, front: Seq<u8>, back: Seq<u8>, i: int)
    requires
        0 <= i < row.len(),
    ensures
        num_at(front + pairs_bytes(row) + back, front.len() + 8 * i, 4) == row[i].0,
        num_at(front + pairs_bytes(row) + back, front.len() + 8 * i + 4, 4) == row[i].1,
    decreases row.len(),
{
    let rest = row.drop_last();
    let a = le(row.last().0 as nat, 4);
    let b = le(row.last().1 as nat, 4);
    lemma_le_len(row.last().0 as nat, 4);
    lemma_le_len(row.last().1 as nat, 4);
    lemma_pairs_len(rest);
    let all = front + pairs_bytes(row) + back;
    if i < rest.len() {
        lemma_pair(rest, front, a + b + back, i);
        assert(all =~= front + pairs_bytes(rest) + (a + b + back));
    } else {
        let pos = front.len() + 8 * i;
        assert(all.subrange(pos as int, pos + 4) =~= a);
        assert(all.subrange(pos + 4, pos + 8) =~= b);
        lemma_pow256();
        lemma_of_le_le(row.last().0 as nat, 4);
        lemma_of_le_le(row.last().1 as nat, 4);
    }
}

proof fn lemma_row_read(row: Seq<(u32, u32)>, front: Seq<u8>, back: Seq<u8>)
    requires
        row.len() <= u32::MAX,
    ensures
        row_read(front + row_bytes(row) + back, front.len() as int) == Some(
            (row, (front.len() + row_bytes(row).len()) as int),
        ),
{
    let all = front + row_bytes(row) + back;
    let n = le(row.len(), 4);
    lemma_le_len(row.len(), 4);
    lemma_pairs_len(row);
    lemma_pow256();
    lemma_of_le_le(row.len(), 4);
    let pos = front.len() as int;
    assert(all.subrange(pos, pos + 4) =~= n);
    let mid = front + n;
    assert(all =~= mid + pairs_bytes(row) + back);
    assert(pairs_at(all, pos + 4, row.len()) =~= row) by {
        assert forall|i: int| 0 <= i < row.len() implies (
            num_at(all, pos + 4 + 8 * i, 4) as u32,
            num_at(all, pos + 4 + 8 * i + 4, 4) as u32,
        ) == row[i] by {
            lemma_pair(row, mid, back, i);
        }
    }
}

proof fn lemma_rows_read(rows: Seq<Seq<(u32, u32)>>, front: Seq<u8>, back: Seq<u8>)
    requires
        forall|l: int| 0 <= l < rows.len() ==> (#[trigger] rows[l]).len() <= u32::MAX,
    ensures
        rows_read(front + rows_bytes(rows) + back, front.len() as int, rows.len()) == Some(
            (rows, (front.len() + rows_bytes(rows).len()) as int),
        ),
    decreases rows.len(),
{
    let all = front + rows_bytes(rows) + back;
    if rows.len() == 0 {
        assert(rows =~= Seq::<Seq<(u32, u32)>>::empty());
    } else {
        let rest = rows.drop_last();
        let last = rows.last();
        assert(rows[rows.len() - 1].len() <= u32::MAX);
        lemma_rows_read(rest, front, row_bytes(last) + back);
        assert(all =~= front + rows_bytes(rest) + (row_bytes(last) + back));
        let mid = front + rows_bytes(rest);
        lemma_row_read(last, mid, back);
        assert(all =~= mid + row_bytes(last) + back);
        assert(rest.push(last) =~= rows);
    }
}

proof fn lemma_session_read(s: SessionView, front: Seq<u8>, back: Seq<u8>)
    requires
        session_fits(s),
    ensures
        session_read(front + session_bytes(s) + back, front.len() as int) == Some(
            (s, (front.len() + session_bytes(s).len()) as int),
        ),
{
    let all = front + session_bytes(s) + back;
    let a = le(s.requests as nat, 8);
    let b = le(s.layers.len(), 4);
    let c = le(expert_bound(s.layers) as nat, 4);
    lemma_le_len(s.requests as nat, 8);
    lemma_le_len(s.layers.len(), 4);
    lemma_le_len(expert_bound(s.layers) as nat, 4);
    lemma_pow256();
    lemma_of_le_le(s.requests as nat, 8);
    lemma_of_le_le(s.layers.len(), 4);
    let pos = front.len() as int;
    assert(all.subrange(pos, pos + 8) =~= a);
    assert(all.subrange(pos + 8, pos + 12) =~= b);
    let mid = front + a + b + c;
    assert(all =~= mid + rows_bytes(s.layers) + back);
    lemma_rows_read(s.layers, mid, back);
}

/// More bytes behind a row change nothing of it.
proof fn lemma_row_extends(bytes: Seq<u8>, more: Seq<u8>, pos: int)
    requires
        0 <= pos,
        row_read(bytes, pos) is Some,
    ensures
        row_read(bytes + more, pos) == row_read(bytes, pos),
        pos <= row_read(bytes, pos)->Some_0.1 <= bytes.len(),
{
    let all = bytes + more;
    assert(all.subrange(pos, pos + 4) =~= bytes.subrange(pos, pos + 4));
    let n = num_at(bytes, pos, 4);
    assert(pairs_at(all, pos + 4, n) =~= pairs_at(bytes, pos + 4, n)) by {
        let a = pairs_at(all, pos + 4, n);
        let b = pairs_at(bytes, pos + 4, n);
        assert forall|i: int| 0 <= i < n implies #[trigger] a[i] == b[i] by {
            let p = pos + 4 + 8 * i;
            assert(all.subrange(p, p + 4) =~= bytes.subrange(p, p + 4));
            assert(all.subrange(p + 4, p + 8) =~= bytes.subrange(p + 4, p + 8));
        }
    }
}

proof fn lemma_rows_extend(bytes: Seq<u8>, more: Seq<u8>, pos: int, n: nat)
    requires
        0 <= pos <= bytes.len(),
        rows_read(bytes, pos, n) is Some,
    ensures
        rows_read(bytes + more, pos, n) == rows_read(bytes, pos, n),
        pos <= rows_read(bytes, pos, n)->Some_0.1 <= bytes.len(),
    decreases n,
{
    if n > 0 {
        lemma_rows_extend(bytes, more, pos, (n - 1) as nat);
        let p = rows_read(bytes, pos, (n - 1) as nat)->Some_0.1;
        lemma_row_extends(bytes, more, p);
    }
}

proof fn lemma_session_extends(bytes: Seq<u8>, more: Seq<u8>, pos: int)
    requires
        0 <= pos,
        session_read(bytes, pos) is Some,
    ensures
        session_read(bytes + more, pos) == session_read(bytes, pos),
        pos <= session_read(bytes, pos)->Some_0.1 <= bytes.len(),
{
    let all = bytes + more;
    assert(all.subrange(pos, pos + 8) =~= bytes.subrange(pos, pos + 8));
    assert(all.subrange(pos + 8, pos + 12) =~= bytes.subrange(pos + 8, pos + 12));
    lemma_rows_extend(bytes, more, pos + 16, num_at(bytes, pos + 8, 4));
}

/// A record that is cut short cannot be read.
proof fn lemma_torn_session(s: SessionView, front: Seq<u8>, m: int)
    requires
        session_fits(s),
        0 <= m < session_bytes(s).len(),
    ensures
        session_read(front + session_bytes(s).take(m), front.len() as int) is None,
{
    let rec = session_bytes(s);
    let cut = front + rec.take(m);
    let more = rec.skip(m);
    if session_read(cut, front.len() as int) is Some {
        lemma_session_extends(cut, more, front.len() as int);
        assert(cut + more =~= front + rec + Seq::<u8>::empty());
        lemma_session_read(s, front, Seq::empty());
    }
}

/// The records with the one at `k` set apart.
proof fn lemma_record_between(s: Seq<SessionView>, k: int, front: Seq<u8>, back: Seq<u8>)
    requires
        0 <= k < s.len(),
    ensures
        front + sessions_bytes(s) + back == (front + sessions_bytes(s.take(k))) + session_bytes(
            s[k],
        ) + (sessions_tail(s, k + 1) + back),
        sessions_bytes(s.take(k + 1)).len() == sessions_bytes(s.take(k)).len() + session_bytes(
            s[k],
        ).len(),
{
    lemma_sessions_split(s, k + 1);
    assert(s.take(k + 1).drop_last() =~= s.take(k));
    assert(s.take(k + 1).last() == s[k]);
    let a = sessions_bytes(s.take(k));
    let r = session_bytes(s[k]);
    let t = sessions_tail(s, k + 1);
    assert(sessions_bytes(s) == a + r + t);
    assert(front + (a + r + t) + back =~= (front + a) + r + (t + back));
}

/// Where the record at `k` is read, it ends where the next one begins.
proof fn lemma_read_at(s: Seq<SessionView>, k: int, front: Seq<u8>, back: Seq<u8>)
    requires
        0 <= k < s.len(),
        session_fits(s[k]),
    ensures
        session_read(
            front + sessions_bytes(s) + back,
            (front.len() + sessions_bytes(s.take(k)).len()) as int,
        ) == Some((s[k], (front.len() + sessions_bytes(s.take(k + 1)).len()) as int)),
{
    lemma_record_between(s, k, front, back);
    lemma_session_read(
        s[k],
        front + sessions_bytes(s.take(k)),
        sessions_tail(s, k + 1) + back,
    );
}

/// A record that is read stands before those behind it.
proof fn lemma_one_more(all: Seq<u8>, pos: int, first: SessionView, end: int, n: nat)
    requires
        n > 0,
        session_read(all, pos) == Some((first, end)),
    ensures
        sessions_read(all, pos, n) == seq![first] + sessions_read(all, end, (n - 1) as nat),
{
}

/// Where record `i` begins.
#[verifier::opaque]
spec fn place(s: Seq<SessionView>, base: int, i: int) -> int {
    base + sessions_bytes(s.take(i)).len()
}

/// The record at `i` is read where it stands.
#[verifier::opaque]
spec fn reads_at(all: Seq<u8>, s: Seq<SessionView>, base: int, i: int) -> bool {
    session_read(all, place(s, base, i)) == Some((s[i], place(s, base, i + 1)))
}

/// Records that are each read where they stand are read one behind the other.
proof fn lemma_chain_read(all: Seq<u8>, s: Seq<SessionView>, base: int, k: int, n: nat)
    requires
        0 <= k <= s.len(),
        n >= s.len() - k,
        forall|i: int| 0 <= i < s.len() ==> #[trigger] reads_at(all, s, base, i),
        n > s.len() - k ==> session_read(all, place(s, base, s.len() as int)) is None,
    ensures
        sessions_read(all, place(s, base, k), n) == s.skip(k),
    decreases s.len() - k,
{
    if k == s.len() {
        assert(s.skip(k) =~= Seq::<SessionView>::empty());
    } else {
        assert(reads_at(all, s, base, k));
        reveal(reads_at);
        lemma_one_more(all, place(s, base, k), s[k], place(s, base, k + 1), n);
        lemma_chain_read(all, s, base, k + 1, (n - 1) as nat);
        assert(seq![s[k]] + s.skip(k + 1) =~= s.skip(k));
    }
}

/// Records behind `front` are read up to `n` of them, where nothing is read behind the last.
proof fn lemma_sessions_read(s: Seq<SessionView>, front: Seq<u8>, back: Seq<u8>, n: nat)
    requires
        n >= s.len(),
        forall|i: int| 0 <= i < s.len() ==> session_fits(#[trigger] s[i]),
        n > s.len() ==> session_read(
            front + sessions_bytes(s) + back,
            (front.len() + sessions_bytes(s).len()) as int,
        ) is None,
    ensures
        sessions_read(front + sessions_bytes(s) + back, front.len() as int, n) == s,
{
    let all = front + sessions_bytes(s) + back;
    let base = front.len() as int;
    assert forall|i: int| 0 <= i < s.len() implies #[trigger] reads_at(all, s, base, i) by {
        assert(session_fits(s[i]));
        lemma_read_at(s, i, front, back);
        reveal(reads_at);
        reveal(place);
    }
    assert(place(s, base, 0) == base && place(s, base, s.len() as int) == base
        + sessions_bytes(s).len()) by {
        reveal(place);
        assert(s.take(0) =~= Seq::<SessionView>::empty());
        assert(s.take(s.len() as int) =~= s);
    }
    lemma_chain_read(all, s, base, 0, n);
    assert(s.skip(0) =~= s);
}

/// The records from `k` on.
spec fn sessions_tail(s: Seq<SessionView>, k: int) -> Seq<u8> {
    sessions_bytes(s).skip(sessions_bytes(s.take(k)).len() as int)
}

proof fn lemma_sessions_split(s: Seq<SessionView>, k: int)
    requires
        0 <= k <= s.len(),
    ensures
        sessions_bytes(s.take(k)).len() <= sessions_bytes(s).len(),
        sessions_bytes(s) == sessions_bytes(s.take(k)) + sessions_tail(s, k),
    decreases s.len(),
{
    if k == s.len() {
        assert(s.take(k) =~= s);
        assert(sessions_bytes(s) =~= sessions_bytes(s.take(k)) + sessions_tail(s, k));
    } else {
        lemma_sessions_split(s.drop_last(), k);
        assert(s.drop_last().take(k) =~= s.take(k));
        let a = sessions_bytes(s.take(k));
        assert(sessions_bytes(s) =~= a + sessions_tail(s, k)) by {
            let whole = sessions_bytes(s);
            assert(whole.take(a.len() as int) =~= a) by {
                assert(sessions_bytes(s.drop_last()).take(a.len() as int) =~= a);
            }
        }
    }
}

proof fn lemma_header(n_layers: u32, n_experts: u32, n: nat, rest: Seq<u8>)
    requires
        n <= u32::MAX,
    ensures
        header_bytes(n_layers, n_experts, n).len() == 28,
        ({
            let s = StoreView {
                n_layers,
                n_experts,
                sessions: sessions_read(header_bytes(n_layers, n_experts, n) + rest, 28, n),
            };
            dims_cover(s) ==> store_read(header_bytes(n_layers, n_experts, n) + rest) == Ok::<
                StoreView,
                RouteError,
            >(s)
        }),
{
    lemma_le_len(MAGIC as nat, 8);
    lemma_le_len(VERSION as nat, 4);
    lemma_le_len(n_layers as nat, 4);
    lemma_le_len(n_experts as nat, 4);
    lemma_le_len(n, 4);
    lemma_le_len(0, 4);
    lemma_pow256();
    lemma_of_le_le(MAGIC as nat, 8);
    lemma_of_le_le(VERSION as nat, 4);
    lemma_of_le_le(n_layers as nat, 4);
    lemma_of_le_le(n_experts as nat, 4);
    lemma_of_le_le(n, 4);
    let all = header_bytes(n_layers, n_experts, n) + rest;
    assert(all.subrange(0, 8) =~= le(MAGIC as nat, 8));
    assert(all.subrange(8, 12) =~= le(VERSION as nat, 4));
    assert(all.subrange(12, 16) =~= le(n_layers as nat, 4));
    assert(all.subrange(16, 20) =~= le(n_experts as nat, 4));
    assert(all.subrange(20, 24) =~= le(n, 4));
}

/// A store whose dimensions cover its sessions reads back as it was written.
pub proof fn law_store_reads_back(s: StoreView)
    requires
        store_fits(s),
        dims_cover(s),
    ensures
        store_read(store_bytes(s)) == Ok::<StoreView, RouteError>(s),
{
    let h = header_bytes(s.n_layers, s.n_experts, s.sessions.len());
    lemma_header(s.n_layers, s.n_experts, s.sessions.len(), sessions_bytes(s.sessions));
    lemma_sessions_read(s.sessions, h, Seq::empty(), s.sessions.len());
    assert(store_bytes(s) =~= h + sessions_bytes(s.sessions) + Seq::<u8>::empty());
}

/// A file that ends inside the record behind the first `k` sessions reads as those `k`.
pub proof fn law_torn_record_is_dropped(s: StoreView, k: int, m: int)
    requires
        store_fits(s),
        dims_cover(s),
        0 <= k < s.sessions.len(),
        0 <= m < session_bytes(s.sessions[k]).len(),
    ensures
        store_read(
            header_bytes(s.n_layers, s.n_experts, s.sessions.len()) + sessions_bytes(
                s.sessions.take(k),
            ) + session_bytes(s.sessions[k]).take(m),
        ) == Ok::<StoreView, RouteError>(
            StoreView { sessions: s.sessions.take(k), ..s },
        ),
{
    let n = s.sessions.len();
    let h = header_bytes(s.n_layers, s.n_experts, n);
    let kept = s.sessions.take(k);
    let body = sessions_bytes(kept);
    let torn = session_bytes(s.sessions[k]).take(m);
    lemma_header(s.n_layers, s.n_experts, n, body + torn);
    assert(h + body + torn =~= h + (body + torn));
    assert(session_fits(s.sessions[k]));
    lemma_torn_session(s.sessions[k], h + body, m);
    assert forall|i: int| 0 <= i < kept.len() implies session_fits(#[trigger] kept[i]) by {
        assert(session_fits(s.sessions[i]));
    }
    lemma_sessions_read(kept, h, torn, n);
    let short = StoreView { sessions: kept, ..s };
    assert forall|i: int| 0 <= i < kept.len() implies session_within(
        #[trigger] short.sessions[i],
        s.n_layers,
        s.n_experts,
    ) by {
        assert(session_within(s.sessions[i], s.n_layers, s.n_experts));
    }
}

proof fn lemma_row_bound(row: Seq<(u32, u32)>, from: int, i: int)
    ensures
        row_bound(row, from) >= from,
        0 <= i < row.len() ==> row[i].0 < row_bound(row, from),
    decreases row.len(),
{
    if row.len() > 0 {
        lemma_row_bound(row.drop_last(), from, i);
    }
}

proof fn lemma_expert_bound(layers: Seq<Seq<(u32, u32)>>, l: int, i: int)
    requires
        0 <= l < layers.len(),
        0 <= i < layers[l].len(),
    ensures
        layers[l][i].0 < expert_bound(layers),
    decreases layers.len(),
{
    lemma_row_bound(layers.last(), expert_bound(layers.drop_last()), i);
    if l < layers.len() - 1 {
        lemma_expert_bound(layers.drop_last(), l, i);
    }
}

proof fn lemma_row_fits(row: Seq<(u32, u32)>, from: int)
    requires
        0 <= from <= u32::MAX,
        forall|i: int| 0 <= i < row.len() ==> (#[trigger] row[i]).0 < u32::MAX,
    ensures
        0 <= row_bound(row, from) <= u32::MAX,
    decreases row.len(),
{
    if row.len() > 0 {
        lemma_row_fits(row.drop_last(), from);
        assert(row[row.len() - 1].0 < u32::MAX);
    }
}

proof fn lemma_experts_fit(layers: Seq<Seq<(u32, u32)>>)
    requires
        experts_fit(layers),
    ensures
        0 <= expert_bound(layers) <= u32::MAX,
    decreases layers.len(),
{
    if layers.len() > 0 {
        let rest = layers.drop_last();
        assert forall|l: int, i: int| 0 <= l < rest.len() && 0 <= i < rest[l].len() implies (
        #[trigger] rest[l][i]).0 < u32::MAX by {
            assert(layers[l][i].0 < u32::MAX);
        }
        lemma_experts_fit(rest);
        let row = layers.last();
        assert forall|i: int| 0 <= i < row.len() implies (#[trigger] row[i]).0 < u32::MAX by {
            assert(layers[layers.len() - 1][i].0 < u32::MAX);
        }
        lemma_row_fits(row, expert_bound(rest));
    }
}

/// The dimensions of sessions are the greatest that occur among them.
pub proof fn law_dimensions_are_the_greatest(s: Seq<SessionView>)
    requires
        forall|i: int| 0 <= i < s.len() ==> session_fits(#[trigger] s[i]),
    ensures
        forall|i: int| 0 <= i < s.len() ==> (#[trigger] s[i]).layers.len() <= most_layers(s),
        forall|i: int|
            0 <= i < s.len() ==> expert_bound((#[trigger] s[i]).layers) <= most_experts(s),
        s.len() > 0 ==> exists|i: int|
            0 <= i < s.len() && (#[trigger] s[i]).layers.len() == most_layers(s),
        s.len() > 0 ==> exists|i: int|
            0 <= i < s.len() && expert_bound((#[trigger] s[i]).layers) == most_experts(s),
        0 <= most_layers(s) <= u32::MAX,
        0 <= most_experts(s) <= u32::MAX,
    decreases s.len(),
{
    if s.len() > 0 {
        let rest = s.drop_last();
        let n = s.len() - 1;
        assert forall|i: int| 0 <= i < rest.len() implies session_fits(#[trigger] rest[i]) by {
            assert(session_fits(s[i]));
        }
        law_dimensions_are_the_greatest(rest);
        assert(session_fits(s[n]));
        lemma_experts_fit(s[n].layers);
        assert forall|i: int| 0 <= i < s.len() implies (#[trigger] s[i]).layers.len()
            <= most_layers(s) && expert_bound(s[i].layers) <= most_experts(s) by {
            if i < n {
                assert(rest[i] == s[i]);
            }
        }
        if s[n].layers.len() > most_layers(rest) || rest.len() == 0 {
            assert(s[n].layers.len() == most_layers(s));
        } else {
            let i = choose|i: int|
                0 <= i < rest.len() && (#[trigger] rest[i]).layers.len() == most_layers(rest);
            assert(s[i].layers.len() == most_layers(s));
        }
        if expert_bound(s[n].layers) > most_experts(rest) || rest.len() == 0 {
            assert(expert_bound(s[n].layers) == most_experts(s));
        } else {
            let i = choose|i: int|
                0 <= i < rest.len() && expert_bound((#[trigger] rest[i]).layers) == most_experts(
                    rest,
                );
            assert(expert_bound(s[i].layers) == most_experts(s));
        }
    }
}

/// What was added to a store reads back with it: the dimensions that are written cover the
/// sessions.
pub proof fn law_appended_reads_back(s: StoreView, session: SessionView)
    requires
        session_fits(session),
        forall|i: int| 0 <= i < s.sessions.len() ==> session_fits(#[trigger] s.sessions[i]),
    ensures
        dims_cover(appended(s, session)),
        store_read(store_bytes(appended(s, session))) == Ok::<StoreView, RouteError>(
            appended(s, session),
        ),
{
    let new = appended(s, session);
    lemma_capped_fit(s.sessions, session);
    law_dimensions_are_the_greatest(new.sessions);
    assert forall|i: int| 0 <= i < new.sessions.len() implies session_within(
        #[trigger] new.sessions[i],
        new.n_layers,
        new.n_experts,
    ) by {
        let layers = new.sessions[i].layers;
        assert forall|l: int, k: int|
            0 <= l < layers.len() && 0 <= k < layers[l].len() implies (#[trigger] layers[l][k]).0
            < new.n_experts by {
            lemma_expert_bound(layers, l, k);
        }
    }
    law_store_reads_back(new);
}

/// A store never holds more than the limit after a session was added, and the session
/// is its last.
pub proof fn law_append_keeps_the_newest(s: StoreView, session: SessionView)
    ensures
        appended(s, session).sessions.len() <= MAX_SESSIONS,
        appended(s, session).sessions.last() == session,
        forall|i: int|
            0 <= i < appended(s, session).sessions.len() ==> #[trigger] appended(
                s,
                session,
            ).sessions[i] == s.sessions.push(session)[s.sessions.len() + 1 - appended(
                s,
                session,
            ).sessions.len() + i],
{
}

/// How a store begins: the eight letters of its format, its version, the layers and the
/// experts that its sessions reach, the number of its sessions and four empty bytes; a
/// session begins with its requests, its layers and the experts that it reaches.
pub proof fn law_store_begins_with_its_format(s: StoreView, t: SessionView)
    ensures
        ({
            let b = store_bytes(s);
            &&& b.subrange(0, 8) == seq![
                'M' as u8,
                'K' as u8,
                'R' as u8,
                'T' as u8,
                'S' as u8,
                '0' as u8,
                '0' as u8,
                '1' as u8,
            ]
            &&& b.subrange(8, 12) == le(1, 4)
            &&& b.subrange(12, 16) == le(s.n_layers as nat, 4)
            &&& b.subrange(16, 20) == le(s.n_experts as nat, 4)
            &&& b.subrange(20, 24) == le(s.sessions.len(), 4)
            &&& b.subrange(24, 28) == le(0, 4)
        }),
        ({
            let b = session_bytes(t);
            &&& b.subrange(0, 8) == le(t.requests as nat, 8)
            &&& b.subrange(8, 12) == le(t.layers.len(), 4)
            &&& b.subrange(12, 16) == le(expert_bound(t.layers) as nat, 4)
        }),
{
    let b = store_bytes(s);
    crate::le::lemma_le_len(MAGIC as nat, 8);
    crate::le::lemma_le_len(1, 4);
    crate::le::lemma_le_len(0, 4);
    crate::le::lemma_le_len(s.n_layers as nat, 4);
    crate::le::lemma_le_len(s.n_experts as nat, 4);
    crate::le::lemma_le_len(s.sessions.len(), 4);
    assert(le(MAGIC as nat, 8) =~= seq![
        0x4du8,
        0x4bu8,
        0x52u8,
        0x54u8,
        0x53u8,
        0x30u8,
        0x30u8,
        0x31u8,
    ]) by {
        reveal_with_fuel(le, 9);
    }
    assert(b.subrange(0, 8) =~= le(MAGIC as nat, 8));
    assert(b.subrange(8, 12) =~= le(1, 4));
    assert(b.subrange(12, 16) =~= le(s.n_layers as nat, 4));
    assert(b.subrange(16, 20) =~= le(s.n_experts as nat, 4));
    assert(b.subrange(20, 24) =~= le(s.sessions.len(), 4));
    assert(b.subrange(24, 28) =~= le(0, 4));
    let c = session_bytes(t);
    crate::le::lemma_le_len(t.requests as nat, 8);
    crate::le::lemma_le_len(t.layers.len(), 4);
    crate::le::lemma_le_len(expert_bound(t.layers) as nat, 4);
    assert(c.subrange(0, 8) =~= le(t.requests as nat, 8));
    assert(c.subrange(8, 12) =~= le(t.layers.len(), 4));
    assert(c.subrange(12, 16) =~= le(expert_bound(t.layers) as nat, 4));
}

} // verus!
