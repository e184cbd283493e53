//! How many connections may be open at once, per kind.
//!
//! Mesh links, public log viewers and connections that are still being classified are counted in
//! separate pools, so that none of them can take the slots of another.

use vstd::prelude::*;

verus! {

/// How many mesh links may be open.
pub const MAX_CONNS: usize = 1_024;

/// How many log viewers may watch.
pub const MAX_LOG_CONNS: usize = 64;

/// How many connections may wait to be classified.
pub const MAX_WS_PENDING: usize = 2_048;

/// What a connection is counted as.
#[derive(Clone, Copy, PartialEq, Eq, Structural, Debug)]
pub enum Pool {
    /// A mesh link, over either bearer.
    Mesh,
    /// A public log viewer.
    Log,
    /// A connection whose kind is not known yet.
    Pending,
}

/// How many connections a pool may hold.
pub open spec fn cap_of(pool: Pool) -> nat {
    match pool {
        Pool::Mesh => MAX_CONNS as nat,
        Pool::Log => MAX_LOG_CONNS as nat,
        Pool::Pending => MAX_WS_PENDING as nat,
    }
}

/// A slot in a pool, held by one connection.
#[derive(Debug)]
pub struct ConnGuard {
    pool: Pool,
}

impl ConnGuard {
    /// The pool that the slot belongs to.
    pub closed spec fn pool(&self) -> Pool {
        self.pool
    }

    /// The pool that the slot belongs to.
    pub fn kind(&self) -> (pool: Pool)
        ensures
            pool == self.pool(),
    {
        self.pool
    }
}

/// How many slots of each pool are taken.
pub struct Budgets {
    mesh: usize,
    log: usize,
    pending: usize,
}

/// The number of slots taken, by pool.
impl View for Budgets {
    type V = Map<Pool, nat>;

    closed spec fn view(&self) -> Map<Pool, nat> {
        map![
            Pool::Mesh => self.mesh as nat,
            Pool::Log => self.log as nat,
            Pool::Pending => self.pending as nat,
        ]
    }
}

/// Every pool is counted, and none is over its cap.
pub open spec fn within_caps(taken: Map<Pool, nat>) -> bool {
    &&& taken.dom() == set![Pool::Mesh, Pool::Log, Pool::Pending]
    &&& taken[Pool::Mesh] <= cap_of(Pool::Mesh)
    &&& taken[Pool::Log] <= cap_of(Pool::Log)
    &&& taken[Pool::Pending] <= cap_of(Pool::Pending)
}

/// `after` is `before` once a connection has asked for a slot of `pool`, which it was `granted`
/// or not.
pub open spec fn asked(
    before: Map<Pool, nat>,
    pool: Pool,
    after: Map<Pool, nat>,
    granted: bool,
) -> bool {
    &&& granted == (before[pool] < cap_of(pool))
    &&& after == if granted {
        before.insert(pool, before[pool] + 1)
    } else {
        before
    }
}

/// What is taken once a slot of `pool` has been given back.
pub open spec fn given_back(before: Map<Pool, nat>, pool: Pool) -> Map<Pool, nat> {
    before.insert(pool, (before[pool] - 1) as nat)
}

impl Budgets {
    /// Every slot is free.
    pub fn new() -> (res: Self)
        ensures
            within_caps(res@),
            forall|pool: Pool| #[trigger] res@[pool] == 0,
    {
        let res = Budgets { mesh: 0, log: 0, pending: 0 };
        assert(res@.dom() =~= set![Pool::Mesh, Pool::Log, Pool::Pending]);
        assert forall|pool: Pool| #[trigger] res@[pool] == 0 by {
            match pool {
                Pool::Mesh => {},
                Pool::Log => {},
                Pool::Pending => {},
            }
        }
        res
    }

    /// How many slots of `pool` are taken.
    pub fn active(&self, pool: Pool) -> (n: usize)
        ensures
            n == self@[pool],
    {
        match pool {
            Pool::Mesh => self.mesh,
            Pool::Log => self.log,
            Pool::Pending => self.pending,
        }
    }

    /// Takes a slot of `pool`, if one is free.
    pub fn admit_against(&mut self, pool: Pool) -> (guard: Option<ConnGuard>)
        requires
            within_caps(old(self)@),
        ensures
            within_caps(final(self)@),
            asked(old(self)@, pool, final(self)@, guard is Some),
            guard matches Some(g) ==> g.pool() == pool,
    {
        match pool {
            Pool::Mesh => {
                if self.mesh >= MAX_CONNS {
                    return None;
                }
                self.mesh += 1;
            },
            Pool::Log => {
                if self.log >= MAX_LOG_CONNS {
                    return None;
                }
                self.log += 1;
            },
            Pool::Pending => {
                if self.pending >= MAX_WS_PENDING {
                    return None;
                }
                self.pending += 1;
            },
        }
        assert(self@ =~= old(self)@.insert(pool, old(self)@[pool] + 1));
        assert(self@.dom() =~= set![Pool::Mesh, Pool::Log, Pool::Pending]);
        Some(ConnGuard { pool })
    }

    /// Takes a slot for a mesh link, if one is free; else the connection is shed.
    pub fn admit_conn(&mut self) -> (guard: Option<ConnGuard>)
        requires
            within_caps(old(self)@),
        ensures
            within_caps(final(self)@),
            asked(old(self)@, Pool::Mesh, final(self)@, guard is Some),
            guard matches Some(g) ==> g.pool() == Pool::Mesh,
    {
        self.admit_against(Pool::Mesh)
    }

    /// Takes a slot for a log viewer, if one is free; else the connection is shed.
    pub fn admit_log_conn(&mut self) -> (guard: Option<ConnGuard>)
        requires
            within_caps(old(self)@),
        ensures
            within_caps(final(self)@),
            asked(old(self)@, Pool::Log, final(self)@, guard is Some),
            guard matches Some(g) ==> g.pool() == Pool::Log,
    {
        self.admit_against(Pool::Log)
    }

    /// Takes a slot for a connection that is to be classified, if one is free; else the
    /// connection is shed.
    pub fn admit_ws_pending(&mut self) -> (guard: Option<ConnGuard>)
        requires
            within_caps(old(self)@),
        ensures
            within_caps(final(self)@),
            asked(old(self)@, Pool::Pending, final(self)@, guard is Some),
            guard matches Some(g) ==> g.pool() == Pool::Pending,
    {
        self.admit_against(Pool::Pending)
    }

    /// Gives a slot back.
    pub fn release(&mut self, guard: ConnGuard)
        requires
            within_caps(old(self)@),
            old(self)@[guard.pool()] > 0,
        ensures
            within_caps(final(self)@),
            final(self)@ == given_back(old(self)@, guard.pool()),
    {
        match guard.pool {
            Pool::Mesh => {
                self.mesh -= 1;
            },
            Pool::Log => {
                self.log -= 1;
            },
            Pool::Pending => {
                self.pending -= 1;
            },
        }
        assert(self@ =~= given_back(old(self)@, guard.pool));
        assert(self@.dom() =~= set![Pool::Mesh, Pool::Log, Pool::Pending]);
    }
}

/// The pools are separate: whether a slot is granted depends on its own pool alone, and no other
/// pool changes. So log viewers never starve mesh links, nor mesh links log viewers.
pub proof fn law_pools_are_separate(
    before: Map<Pool, nat>,
    pool: Pool,
    after: Map<Pool, nat>,
    granted: bool,
    other: Pool,
)
    requires
        asked(before, pool, after, granted),
        other != pool,
    ensures
        granted <==> before[pool] < cap_of(pool),
        after[other] == before[other],
        given_back(before, pool)[other] == before[other],
{
}

/// Giving back a granted slot undoes the admission.
pub proof fn law_release_undoes_admission(
    before: Map<Pool, nat>,
    pool: Pool,
    after: Map<Pool, nat>,
)
    requires
        within_caps(before),
        asked(before, pool, after, true),
    ensures
        given_back(after, pool) == before,
{
    assert(before.dom().contains(pool));
    assert(given_back(after, pool) =~= before);
}

/// A pool that is full grants again once a slot has been given back.
pub proof fn law_a_freed_slot_is_granted_again(
    before: Map<Pool, nat>,
    pool: Pool,
    after: Map<Pool, nat>,
    granted: bool,
)
    requires
        within_caps(before),
        before[pool] == cap_of(pool),
        asked(given_back(before, pool), pool, after, granted),
    ensures
        granted,
        after == before,
{
    assert(before.dom().contains(pool));
    assert(after =~= before);
}

/// The log pool is a small reserve beside the mesh pool, and the pool for connections that are
/// being classified is larger than the mesh.
pub proof fn law_log_pool_is_small()
    ensures
        1 <= cap_of(Pool::Log) < cap_of(Pool::Mesh) < cap_of(Pool::Pending),
{
}

/// The pools in numbers: there are slots for 1024 mesh links, 64 log viewers and 2048 connections
/// that are being classified. One is granted exactly while fewer are taken; it is then counted
/// once, in its own pool, and otherwise nothing changes.
pub proof fn law_slots_are_counted(
    before: Map<Pool, nat>,
    pool: Pool,
    after: Map<Pool, nat>,
    granted: bool,
)
    requires
        asked(before, pool, after, granted),
    ensures
        pool is Mesh ==> (granted <==> before[pool] < 1_024),
        pool is Log ==> (granted <==> before[pool] < 64),
        pool is Pending ==> (granted <==> before[pool] < 2_048),
        granted ==> after == before.insert(pool, before[pool] + 1),
        !granted ==> after == before,
        before[pool] > 0 ==> given_back(before, pool)[pool] + 1 == before[pool],
        forall|other: Pool| other != pool ==> #[trigger] given_back(before, pool)[other]
            == before[other],
{
}

/// Any counts up to the caps may be there.
pub proof fn law_pools_may_fill_up(mesh: nat, log: nat, pending: nat)
    ensures
        mesh <= 1_024 && log <= 64 && pending <= 2_048 <==> within_caps(
            map![Pool::Mesh => mesh, Pool::Log => log, Pool::Pending => pending],
        ),
{
    let taken = map![Pool::Mesh => mesh, Pool::Log => log, Pool::Pending => pending];
    assert(taken.dom() =~= set![Pool::Mesh, Pool::Log, Pool::Pending]);
}

/// Whichever way a slot is asked for, it is one of its own pool, granted while that has room; and
/// giving it back frees it again, with every other pool as it was.
pub proof fn law_each_way_in_has_its_pool(
    mesh: &mut Budgets,
    log: &mut Budgets,
    pending: &mut Budgets,
    back: &mut Budgets,
    links: Option<ConnGuard>,
    viewers: Option<ConnGuard>,
    arrivals: Option<ConnGuard>,
    gone: ConnGuard,
)
    requires
        within_caps(old(mesh)@),
        within_caps(old(log)@),
        within_caps(old(pending)@),
        within_caps(old(back)@),
        old(back)@[gone.pool()] > 0,
        call_ensures(Budgets::admit_conn, (mesh,), links),
        call_ensures(Budgets::admit_log_conn, (log,), viewers),
        call_ensures(Budgets::admit_ws_pending, (pending,), arrivals),
        call_ensures(Budgets::release, (back, gone), ()),
    ensures
        links is Some <==> old(mesh)@[Pool::Mesh] < 1_024,
        viewers is Some <==> old(log)@[Pool::Log] < 64,
        arrivals is Some <==> old(pending)@[Pool::Pending] < 2_048,
        links matches Some(g) ==> g.pool() is Mesh && final(mesh)@ == old(mesh)@.insert(
            Pool::Mesh,
            old(mesh)@[Pool::Mesh] + 1,
        ),
        viewers matches Some(g) ==> g.pool() is Log && final(log)@ == old(log)@.insert(
            Pool::Log,
            old(log)@[Pool::Log] + 1,
        ),
        arrivals matches Some(g) ==> g.pool() is Pending && final(pending)@ == old(pending)@.insert(Pool::Pending, old(pending)@[Pool::Pending] + 1),
        links is None ==> final(mesh)@ == old(mesh)@,
        viewers is None ==> final(log)@ == old(log)@,
        arrivals is None ==> final(pending)@ == old(pending)@,
        final(back)@[gone.pool()] + 1 == old(back)@[gone.pool()],
        forall|other: Pool|
            other != gone.pool() ==> #[trigger] final(back)@[other] == old(back)@[other],
{
}

} // verus!
