//! The entity reconciler and the per-frame session state.
//!
//! The server is the sole source of truth for which entities exist and where
//! they stand: every `update` command carries a full snapshot, and the
//! client replaces its entity set with exactly the snapshot's id set. An
//! entity already present keeps its identity — and so its model instance —
//! and only its position is overwritten; a new id is bound to a model
//! variant chosen once, at creation; an id no longer reported is evicted and
//! its model instance released before the entity is dropped.

use vstd::prelude::*;
use vstd::set_lib::lemma_len_subset;

use crate::codec::{decode_chunk, spec_decode_chunk, CmdView, Command};
use crate::registry::{ModelKind, ModelRegistry};

verus! {

/// One networked game object: a server-assigned id, a grid position, and
/// the model variant its rendering instance is bound to.
#[derive(Clone, Copy, PartialEq, Eq, Structural, Debug)]
pub struct Entity {
    pub id: u32,
    pub x: i32,
    pub z: i32,
    pub model: ModelKind,
}

/// The model variant a newly created entity is bound to: the player's own
/// id gets the highlighted variant, every other id the plain one.
pub open spec fn chosen_model(player_id: u32, id: u32) -> ModelKind {
    if id == player_id {
        ModelKind::Player
    } else {
        ModelKind::Other
    }
}

/// The entity set as a mapping from id to entity. A later duplicate of an
/// id overwrites an earlier one.
pub open spec fn entities_map(s: Seq<Entity>) -> Map<u32, Entity>
    decreases s.len(),
{
    if s.len() == 0 {
        Map::empty()
    } else {
        entities_map(s.drop_last()).insert(s.last().id, s.last())
    }
}

/// Ids are pairwise distinct: each server id names at most one entity.
pub open spec fn distinct_ids(s: Seq<Entity>) -> bool {
    forall|i: int, j: int| 0 <= i < j < s.len() ==> s[i].id != s[j].id
}

/// How many entities are bound to the given model variant.
pub open spec fn count_kind(s: Seq<Entity>, k: ModelKind) -> nat
    decreases s.len(),
{
    if s.len() == 0 {
        0
    } else {
        count_kind(s.drop_last(), k) + if s.last().model == k {
            1nat
        } else {
            0nat
        }
    }
}

/// The ids reported by a snapshot's triples.
pub open spec fn ids_of(ts: Seq<(u32, i32, i32)>) -> Set<u32>
    decreases ts.len(),
{
    if ts.len() == 0 {
        Set::empty()
    } else {
        ids_of(ts.drop_last()).insert(ts.last().0)
    }
}

/// The position the last triple with this id reports: within one snapshot,
/// a later duplicate wins.
pub open spec fn last_pos(ts: Seq<(u32, i32, i32)>, id: u32) -> (i32, i32)
    decreases ts.len(),
{
    if ts.len() == 0 {
        (0i32, 0i32)
    } else if ts.last().0 == id {
        (ts.last().1, ts.last().2)
    } else {
        last_pos(ts.drop_last(), id)
    }
}

/// Applying a snapshot's triples in arrival order: a present id keeps its
/// entity and only the position is overwritten; an absent id is created
/// with its model variant chosen from the player id.
pub open spec fn upsert_all(m: Map<u32, Entity>, pid: u32, ts: Seq<(u32, i32, i32)>) -> Map<
    u32,
    Entity,
>
    decreases ts.len(),
{
    if ts.len() == 0 {
        m
    } else {
        let m1 = upsert_all(m, pid, ts.drop_last());
        let t = ts.last();
        let model = if m1.dom().contains(t.0) {
            m1[t.0].model
        } else {
            chosen_model(pid, t.0)
        };
        m1.insert(t.0, Entity { id: t.0, x: t.1, z: t.2, model })
    }
}

/// Full-snapshot reconciliation: apply every triple, then evict every id
/// the snapshot no longer reports.
pub open spec fn spec_reconcile(m: Map<u32, Entity>, pid: u32, ts: Seq<(u32, i32, i32)>) -> Map<
    u32,
    Entity,
> {
    upsert_all(m, pid, ts).restrict(ids_of(ts))
}

/// The ids a snapshot creates: reported but not yet present. The
/// reconciler makes exactly one Model Registry attach call per such id.
pub open spec fn created_ids(m: Map<u32, Entity>, ts: Seq<(u32, i32, i32)>) -> Set<u32> {
    ids_of(ts).difference(m.dom())
}

/// The ids a snapshot evicts: present but no longer reported. The
/// reconciler makes exactly one Model Registry remove call per such id.
pub open spec fn evicted_ids(m: Map<u32, Entity>, ts: Seq<(u32, i32, i32)>) -> Set<u32> {
    m.dom().difference(ids_of(ts))
}

/// A snapshot reports finitely many ids.
pub proof fn lemma_ids_of_finite(ts: Seq<(u32, i32, i32)>)
    ensures
        ids_of(ts).finite(),
    decreases ts.len(),
{
    if ts.len() > 0 {
        lemma_ids_of_finite(ts.drop_last());
    }
}

/// An id is reported exactly when some triple carries it.
pub proof fn lemma_ids_of_exists(ts: Seq<(u32, i32, i32)>, id: u32)
    ensures
        ids_of(ts).contains(id) <==> exists|i: int| 0 <= i < ts.len() && (#[trigger] ts[i]).0 == id,
    decreases ts.len(),
{
    if ts.len() > 0 {
        lemma_ids_of_exists(ts.drop_last(), id);
        if ts.last().0 == id {
            assert(ts[ts.len() - 1].0 == id);
        } else if ids_of(ts).contains(id) {
            let i = choose|i: int| 0 <= i < ts.drop_last().len() && (#[trigger] ts.drop_last()[
                i
            ]).0 == id;
            assert(ts[i].0 == id);
        } else {
            assert forall|i: int| 0 <= i < ts.len() implies (#[trigger] ts[i]).0 != id by {
                if i < ts.len() - 1 {
                    assert(ts.drop_last()[i] == ts[i]);
                }
            }
        }
    }
}

/// What applying a snapshot's triples does to the map: its domain grows by
/// the reported ids, a reported id carries the position its last triple
/// gives and keeps its old model (or is created with the chosen one), and
/// an unreported id is untouched.
pub proof fn lemma_upsert_all_char(m: Map<u32, Entity>, pid: u32, ts: Seq<(u32, i32, i32)>)
    ensures
        upsert_all(m, pid, ts).dom() =~= m.dom() + ids_of(ts),
        forall|id: u32|
            ids_of(ts).contains(id) ==> #[trigger] upsert_all(m, pid, ts)[id] == (Entity {
                id,
                x: last_pos(ts, id).0,
                z: last_pos(ts, id).1,
                model: if m.dom().contains(id) {
                    m[id].model
                } else {
                    chosen_model(pid, id)
                },
            }),
        forall|id: u32|
            !ids_of(ts).contains(id) ==> (upsert_all(m, pid, ts).dom().contains(id)
                <==> m.dom().contains(id)) && (m.dom().contains(id)
                ==> #[trigger] upsert_all(m, pid, ts)[id] == m[id]),
    decreases ts.len(),
{
    if ts.len() > 0 {
        lemma_upsert_all_char(m, pid, ts.drop_last());
    }
}

/// After reconciliation the entity set's key set is exactly the ids the
/// snapshot reported: nothing leaks, nothing is missing.
pub proof fn lemma_reconcile_dom(m: Map<u32, Entity>, pid: u32, ts: Seq<(u32, i32, i32)>)
    ensures
        spec_reconcile(m, pid, ts).dom() =~= ids_of(ts),
{
    lemma_upsert_all_char(m, pid, ts);
}

/// A reconciled entity carries the position of the last triple reporting
/// its id, and keeps its old model when it already existed.
pub proof fn lemma_reconcile_char(m: Map<u32, Entity>, pid: u32, ts: Seq<(u32, i32, i32)>)
    ensures
        spec_reconcile(m, pid, ts).dom() =~= ids_of(ts),
        forall|id: u32|
            ids_of(ts).contains(id) ==> #[trigger] spec_reconcile(m, pid, ts)[id] == (Entity {
                id,
                x: last_pos(ts, id).0,
                z: last_pos(ts, id).1,
                model: if m.dom().contains(id) {
                    m[id].model
                } else {
                    chosen_model(pid, id)
                },
            }),
{
    lemma_upsert_all_char(m, pid, ts);
}

/// Applying the same snapshot twice in a row changes nothing the second
/// time: positions are overwritten with the same values, every reported id
/// is already present and keeps its model, and eviction removes nothing.
pub proof fn lemma_reconcile_idempotent(m: Map<u32, Entity>, pid: u32, ts: Seq<(u32, i32, i32)>)
    ensures
        spec_reconcile(spec_reconcile(m, pid, ts), pid, ts) == spec_reconcile(m, pid, ts),
{
    let r = spec_reconcile(m, pid, ts);
    lemma_reconcile_char(m, pid, ts);
    lemma_reconcile_char(r, pid, ts);
    assert forall|id: u32| ids_of(ts).contains(id) implies #[trigger] spec_reconcile(
        r,
        pid,
        ts,
    )[id] == r[id] by {
        assert(r.dom().contains(id));
    }
    assert(spec_reconcile(r, pid, ts) =~= r);
}

/// Every entity of the sequence is in the map under its id, and nothing
/// else is; under distinct ids the map is as large as the sequence.
pub proof fn lemma_entities_map_index(s: Seq<Entity>)
    requires
        distinct_ids(s),
    ensures
        entities_map(s).dom().finite(),
        entities_map(s).dom().len() == s.len(),
        forall|i: int|
            0 <= i < s.len() ==> entities_map(s).dom().contains((#[trigger] s[i]).id)
                && entities_map(s)[s[i].id] == s[i],
        forall|id: u32|
            entities_map(s).dom().contains(id) ==> exists|i: int|
                0 <= i < s.len() && (#[trigger] s[i]).id == id,
    decreases s.len(),
{
    if s.len() > 0 {
        let d = s.drop_last();
        assert(distinct_ids(d));
        lemma_entities_map_index(d);
        assert(!entities_map(d).dom().contains(s.last().id)) by {
            if entities_map(d).dom().contains(s.last().id) {
                let i = choose|i: int| 0 <= i < d.len() && (#[trigger] d[i]).id == s.last().id;
                assert(s[i].id == s[s.len() - 1].id);
            }
        }
        assert forall|i: int| 0 <= i < s.len() implies entities_map(s).dom().contains(
            (#[trigger] s[i]).id,
        ) && entities_map(s)[s[i].id] == s[i] by {
            if i < s.len() - 1 {
                assert(d[i] == s[i]);
                assert(s[i].id != s.last().id);
            }
        }
        assert forall|id: u32| entities_map(s).dom().contains(id) implies exists|i: int|
            0 <= i < s.len() && (#[trigger] s[i]).id == id by {
            if id == s.last().id {
                assert(s[s.len() - 1].id == id);
            } else {
                let i = choose|i: int| 0 <= i < d.len() && (#[trigger] d[i]).id == id;
                assert(s[i].id == id);
            }
        }
    }
}

/// Overwriting an entity in place under its own id updates the map entry
/// and keeps the ids distinct.
pub proof fn lemma_entities_map_update(s: Seq<Entity>, i: int, e: Entity)
    requires
        distinct_ids(s),
        0 <= i < s.len(),
        e.id == s[i].id,
    ensures
        entities_map(s.update(i, e)) =~= entities_map(s).insert(e.id, e),
        distinct_ids(s.update(i, e)),
    decreases s.len(),
{
    let su = s.update(i, e);
    if i == s.len() - 1 {
        assert(su.drop_last() =~= s.drop_last());
        assert(su.last() == e);
    } else {
        assert(su.drop_last() =~= s.drop_last().update(i, e));
        assert(su.last() == s.last());
        assert(distinct_ids(s.drop_last()));
        assert(s.drop_last()[i] == s[i]);
        lemma_entities_map_update(s.drop_last(), i, e);
        assert(e.id != s.last().id);
        assert(entities_map(su) =~= entities_map(s).insert(e.id, e));
    }
}

/// Appending a fresh entity adds one map entry.
pub proof fn lemma_entities_map_push(s: Seq<Entity>, e: Entity)
    ensures
        entities_map(s.push(e)) == entities_map(s).insert(e.id, e),
{
    assert(s.push(e).drop_last() =~= s);
    assert(s.push(e).last() == e);
}

/// Overwriting an entity without changing its model variant keeps every
/// variant count.
pub proof fn lemma_count_kind_update(s: Seq<Entity>, i: int, e: Entity, k: ModelKind)
    requires
        0 <= i < s.len(),
        e.model == s[i].model,
    ensures
        count_kind(s.update(i, e), k) == count_kind(s, k),
    decreases s.len(),
{
    let su = s.update(i, e);
    if i == s.len() - 1 {
        assert(su.drop_last() =~= s.drop_last());
        assert(su.last() == e);
    } else {
        assert(su.drop_last() =~= s.drop_last().update(i, e));
        assert(su.last() == s.last());
        assert(s.drop_last()[i] == s[i]);
        lemma_count_kind_update(s.drop_last(), i, e, k);
    }
}

/// Appending an entity raises its variant's count by one.
pub proof fn lemma_count_kind_push(s: Seq<Entity>, e: Entity, k: ModelKind)
    ensures
        count_kind(s.push(e), k) == count_kind(s, k) + if e.model == k {
            1nat
        } else {
            0nat
        },
{
    assert(s.push(e).drop_last() =~= s);
    assert(s.push(e).last() == e);
}

/// A prefix never holds more entities of a variant than the whole.
pub proof fn lemma_count_kind_take_le(s: Seq<Entity>, i: int, k: ModelKind)
    requires
        0 <= i <= s.len(),
    ensures
        count_kind(s.take(i), k) <= count_kind(s, k),
    decreases s.len(),
{
    if i < s.len() {
        assert(s.drop_last().take(i) =~= s.take(i));
        lemma_count_kind_take_le(s.drop_last(), i, k);
    } else {
        assert(s.take(i) =~= s);
    }
}

/// Every entity is bound to one of the two variants.
pub proof fn lemma_count_kind_total(s: Seq<Entity>)
    ensures
        count_kind(s, ModelKind::Player) + count_kind(s, ModelKind::Other) == s.len(),
    decreases s.len(),
{
    if s.len() > 0 {
        lemma_count_kind_total(s.drop_last());
    }
}

/// Index of the entity with the given id, if one is present.
fn find_entity(entities: &Vec<Entity>, id: u32) -> (r: Option<usize>)
    ensures
        match r {
            Some(i) => i < entities@.len() && entities@[i as int].id == id,
            None => forall|i: int| 0 <= i < entities@.len() ==> (#[trigger] entities@[i]).id != id,
        },
{
    let mut i: usize = 0;
    while i < entities.len()
        invariant
            i <= entities@.len(),
            forall|j: int| 0 <= j < i ==> (#[trigger] entities@[j]).id != id,
        decreases entities@.len() - i,
    {
        if entities[i].id == id {
            return Some(i);
        }
        i = i + 1;
    }
    None
}

/// Whether the snapshot reports this id.
fn triples_contain(ts: &Vec<(u32, i32, i32)>, id: u32) -> (r: bool)
    ensures
        r == ids_of(ts@).contains(id),
{
    proof {
        lemma_ids_of_exists(ts@, id);
    }
    let mut i: usize = 0;
    while i < ts.len()
        invariant
            i <= ts@.len(),
            forall|j: int| 0 <= j < i ==> (#[trigger] ts@[j]).0 != id,
        decreases ts@.len() - i,
    {
        if ts[i].0 == id {
            proof {
                lemma_ids_of_exists(ts@, id);
            }
            return true;
        }
        i = i + 1;
    }
    proof {
        lemma_ids_of_exists(ts@, id);
    }
    false
}

/// The observable session state: the local player id and the entity set
/// keyed by server id.
#[verifier::ext_equal]
pub struct SessionView {
    pub player_id: u32,
    pub entities: Map<u32, Entity>,
}

/// What one decoded command does to the session state.
pub open spec fn spec_apply(st: SessionView, c: CmdView) -> SessionView {
    match c {
        CmdView::Init(id) => SessionView { player_id: id, entities: st.entities },
        CmdView::Update(ts) => SessionView {
            player_id: st.player_id,
            entities: spec_reconcile(st.entities, st.player_id, ts),
        },
    }
}

/// What a sequence of decoded commands does, applied in arrival order.
pub open spec fn spec_apply_all(st: SessionView, cmds: Seq<CmdView>) -> SessionView
    decreases cmds.len(),
{
    if cmds.len() == 0 {
        st
    } else {
        spec_apply_all(spec_apply(st, cmds[0]), cmds.drop_first())
    }
}

/// How many Model Registry attach calls one command makes: one per id it
/// creates; `init` and dropped commands make none.
pub open spec fn spec_attaches(st: SessionView, c: CmdView) -> nat {
    match c {
        CmdView::Init(_) => 0,
        CmdView::Update(ts) => created_ids(st.entities, ts).len(),
    }
}

/// How many Model Registry remove calls one command makes: one per id it
/// evicts; `init` and dropped commands make none.
pub open spec fn spec_removes(st: SessionView, c: CmdView) -> nat {
    match c {
        CmdView::Init(_) => 0,
        CmdView::Update(ts) => evicted_ids(st.entities, ts).len(),
    }
}

/// The attach calls a command sequence makes, applied in arrival order.
pub open spec fn spec_attaches_all(st: SessionView, cmds: Seq<CmdView>) -> nat
    decreases cmds.len(),
{
    if cmds.len() == 0 {
        0
    } else {
        spec_attaches(st, cmds[0]) + spec_attaches_all(spec_apply(st, cmds[0]), cmds.drop_first())
    }
}

/// The remove calls a command sequence makes, applied in arrival order.
pub open spec fn spec_removes_all(st: SessionView, cmds: Seq<CmdView>) -> nat
    decreases cmds.len(),
{
    if cmds.len() == 0 {
        0
    } else {
        spec_removes(st, cmds[0]) + spec_removes_all(spec_apply(st, cmds[0]), cmds.drop_first())
    }
}

proof fn lemma_apply_all_snoc(st: SessionView, cmds: Seq<CmdView>, c: CmdView)
    ensures
        spec_apply_all(st, cmds.push(c)) == spec_apply(spec_apply_all(st, cmds), c),
        spec_attaches_all(st, cmds.push(c)) == spec_attaches_all(st, cmds) + spec_attaches(
            spec_apply_all(st, cmds),
            c,
        ),
        spec_removes_all(st, cmds.push(c)) == spec_removes_all(st, cmds) + spec_removes(
            spec_apply_all(st, cmds),
            c,
        ),
    decreases cmds.len(),
{
    if cmds.len() == 0 {
        assert(cmds.push(c)[0] == c);
        assert(cmds.push(c).drop_first() =~= Seq::<CmdView>::empty());
        assert(spec_apply_all(st, cmds.push(c)) == spec_apply_all(
            spec_apply(st, c),
            Seq::<CmdView>::empty(),
        ));
        assert(spec_apply_all(spec_apply(st, c), Seq::<CmdView>::empty()) == spec_apply(st, c));
        assert(spec_apply_all(st, cmds) == st);
        assert(spec_attaches_all(st, cmds.push(c)) == spec_attaches(st, c) + spec_attaches_all(
            spec_apply(st, c),
            Seq::<CmdView>::empty(),
        ));
        assert(spec_attaches_all(spec_apply(st, c), Seq::<CmdView>::empty()) == 0);
        assert(spec_attaches_all(st, cmds) == 0);
        assert(spec_removes_all(st, cmds.push(c)) == spec_removes(st, c) + spec_removes_all(
            spec_apply(st, c),
            Seq::<CmdView>::empty(),
        ));
        assert(spec_removes_all(spec_apply(st, c), Seq::<CmdView>::empty()) == 0);
        assert(spec_removes_all(st, cmds) == 0);
    } else {
        assert(cmds.push(c)[0] == cmds[0]);
        assert(cmds.push(c).drop_first() =~= cmds.drop_first().push(c));
        assert(spec_apply_all(st, cmds.push(c)) == spec_apply_all(
            spec_apply(st, cmds[0]),
            cmds.drop_first().push(c),
        ));
        assert(spec_attaches_all(st, cmds.push(c)) == spec_attaches(st, cmds[0])
            + spec_attaches_all(spec_apply(st, cmds[0]), cmds.drop_first().push(c)));
        assert(spec_removes_all(st, cmds.push(c)) == spec_removes(st, cmds[0]) + spec_removes_all(
            spec_apply(st, cmds[0]),
            cmds.drop_first().push(c),
        ));
        lemma_apply_all_snoc(spec_apply(st, cmds[0]), cmds.drop_first(), c);
        assert(spec_apply_all(st, cmds) == spec_apply_all(
            spec_apply(st, cmds[0]),
            cmds.drop_first(),
        ));
        assert(spec_attaches_all(st, cmds) == spec_attaches(st, cmds[0]) + spec_attaches_all(
            spec_apply(st, cmds[0]),
            cmds.drop_first(),
        ));
        assert(spec_removes_all(st, cmds) == spec_removes(st, cmds[0]) + spec_removes_all(
            spec_apply(st, cmds[0]),
            cmds.drop_first(),
        ));
    }
}

/// The per-frame session: the locally known player id (0 until the server's
/// `init` arrives), the server-reconciled entity set, and the accounting of
/// the Model Registry collaborator.
pub struct Session {
    pub player_id: u32,
    pub entities: Vec<Entity>,
    pub registry: ModelRegistry,
}

impl View for Session {
    type V = SessionView;

    open spec fn view(&self) -> SessionView {
        SessionView { player_id: self.player_id, entities: entities_map(self.entities@) }
    }
}

impl Session {
    /// Well-formedness: ids are unique, and the registry's live instances
    /// are exactly the entities bound to each variant.
    pub open spec fn wf(&self) -> bool {
        &&& distinct_ids(self.entities@)
        &&& self.registry.wf()
        &&& self.registry.spec_live(ModelKind::Player) == count_kind(
            self.entities@,
            ModelKind::Player,
        )
        &&& self.registry.spec_live(ModelKind::Other) == count_kind(
            self.entities@,
            ModelKind::Other,
        )
    }

    /// A fresh session: no player id assigned, no entities, nothing ever
    /// attached.
    pub fn new() -> (s: Session)
        ensures
            s.wf(),
            s@.player_id == 0,
            s@.entities == Map::<u32, Entity>::empty(),
            s.registry.attach_count() == 0,
            s.registry.remove_count() == 0,
    {
        Session { player_id: 0, entities: Vec::new(), registry: ModelRegistry::new() }
    }

    /// Applies one authoritative snapshot: overwrite reported entities in
    /// place, create the new ones, then evict everything unreported. The
    /// Model Registry is called exactly once per created id (attach) and
    /// exactly once per evicted id (remove) — never for a surviving entity,
    /// whose instance is left untouched.
    pub fn apply_update(&mut self, ts: &Vec<(u32, i32, i32)>)
        requires
            old(self).wf(),
        ensures
            final(self).wf(),
            final(self).player_id == old(self).player_id,
            entities_map(final(self).entities@) == spec_reconcile(
                entities_map(old(self).entities@),
                old(self).player_id,
                ts@,
            ),
            final(self).registry.attach_count() == old(self).registry.attach_count()
                + created_ids(entities_map(old(self).entities@), ts@).len(),
            final(self).registry.remove_count() == old(self).registry.remove_count()
                + evicted_ids(entities_map(old(self).entities@), ts@).len(),
    {
        let ghost m0 = entities_map(self.entities@);
        let ghost pid = self.player_id;
        let ghost a0 = self.registry.attach_count();
        let ghost r0 = self.registry.remove_count();
        let n = ts.len();
        let mut k: usize = 0;
        proof {
            assert(ts@.take(0) =~= Seq::<(u32, i32, i32)>::empty());
            assert(created_ids(m0, ts@.take(0)) =~= Set::<u32>::empty());
        }
        while k < n
            invariant
                k <= n,
                n == ts@.len(),
                self.player_id == pid,
                distinct_ids(self.entities@),
                self.registry.wf(),
                self.registry.spec_live(ModelKind::Player) == count_kind(
                    self.entities@,
                    ModelKind::Player,
                ),
                self.registry.spec_live(ModelKind::Other) == count_kind(
                    self.entities@,
                    ModelKind::Other,
                ),
                entities_map(self.entities@) == upsert_all(m0, pid, ts@.take(k as int)),
                self.registry.attach_count() == a0 + created_ids(m0, ts@.take(k as int)).len(),
                self.registry.remove_count() == r0,
            decreases n - k,
        {
            let t = ts[k];
            let ghost s_pre = self.entities@;
            proof {
                assert(ts@.take(k + 1).drop_last() =~= ts@.take(k as int));
                assert(ts@.take(k + 1).last() == ts@[k as int]);
                lemma_entities_map_index(s_pre);
                lemma_upsert_all_char(m0, pid, ts@.take(k as int));
                lemma_ids_of_finite(ts@.take(k as int));
                assert(ids_of(ts@.take(k + 1)) == ids_of(ts@.take(k as int)).insert(
                    ts@[k as int].0,
                ));
            }
            match find_entity(&self.entities, t.0) {
                Some(i) => {
                    let e_old = self.entities[i];
                    let e2 = Entity { id: e_old.id, x: t.1, z: t.2, model: e_old.model };
                    proof {
                        lemma_entities_map_update(s_pre, i as int, e2);
                        lemma_count_kind_update(s_pre, i as int, e2, ModelKind::Player);
                        lemma_count_kind_update(s_pre, i as int, e2, ModelKind::Other);
                        assert(entities_map(s_pre).dom().contains(t.0));
                        assert(created_ids(m0, ts@.take(k + 1)) =~= created_ids(
                            m0,
                            ts@.take(k as int),
                        ));
                    }
                    self.entities[i] = e2;
                },
                None => {
                    proof {
                        assert(!entities_map(s_pre).dom().contains(t.0)) by {
                            if entities_map(s_pre).dom().contains(t.0) {
                                let i = choose|i: int|
                                    0 <= i < s_pre.len() && (#[trigger] s_pre[i]).id == t.0;
                            }
                        }
                        assert(created_ids(m0, ts@.take(k + 1)) =~= created_ids(
                            m0,
                            ts@.take(k as int),
                        ).insert(t.0));
                        assert(!created_ids(m0, ts@.take(k as int)).contains(t.0));
                        lemma_len_subset(
                            created_ids(m0, ts@.take(k as int)),
                            ids_of(ts@.take(k as int)),
                        );
                    }
                    let kind = if t.0 == self.player_id {
                        ModelKind::Player
                    } else {
                        ModelKind::Other
                    };
                    let e = Entity { id: t.0, x: t.1, z: t.2, model: kind };
                    self.entities.push(e);
                    let l = self.entities.len();
                    proof {
                        lemma_count_kind_total(s_pre);
                        assert(s_pre.len() == l - 1);
                        lemma_entities_map_push(s_pre, e);
                        lemma_count_kind_push(s_pre, e, ModelKind::Player);
                        lemma_count_kind_push(s_pre, e, ModelKind::Other);
                        assert(distinct_ids(s_pre.push(e))) by {
                            assert(forall|j: int|
                                0 <= j < s_pre.len() ==> (#[trigger] s_pre[j]).id != e.id);
                        }
                    }
                    self.registry.attach(kind);
                },
            }
            k = k + 1;
        }
        proof {
            assert(ts@.take(n as int) =~= ts@);
        }
        let ghost s1 = self.entities@;
        let ghost m1 = entities_map(s1);
        let ghost ids = ids_of(ts@);
        let ghost a1 = self.registry.attach_count();
        let mut kept: Vec<Entity> = Vec::new();
        let mut idx: usize = 0;
        let len = self.entities.len();
        proof {
            assert(s1.take(0) =~= Seq::<Entity>::empty());
            assert(entities_map(kept@) =~= entities_map(s1.take(0)).restrict(ids));
            assert(entities_map(s1.take(0)).dom().difference(ids) =~= Set::<u32>::empty());
        }
        while idx < len
            invariant
                idx <= len,
                len == s1.len(),
                s1 == self.entities@,
                distinct_ids(s1),
                ids == ids_of(ts@),
                self.player_id == pid,
                self.registry.wf(),
                entities_map(kept@) == entities_map(s1.take(idx as int)).restrict(ids),
                distinct_ids(kept@),
                forall|a: int|
                    0 <= a < kept@.len() ==> exists|b: int|
                        0 <= b < idx && #[trigger] kept@[a] == s1[b],
                self.registry.spec_live(ModelKind::Player) + count_kind(
                    s1.take(idx as int),
                    ModelKind::Player,
                ) == count_kind(s1, ModelKind::Player) + count_kind(kept@, ModelKind::Player),
                self.registry.spec_live(ModelKind::Other) + count_kind(
                    s1.take(idx as int),
                    ModelKind::Other,
                ) == count_kind(s1, ModelKind::Other) + count_kind(kept@, ModelKind::Other),
                self.registry.attach_count() == a1,
                self.registry.remove_count() == r0 + entities_map(
                    s1.take(idx as int),
                ).dom().difference(ids).len(),
            decreases len - idx,
        {
            let e = self.entities[idx];
            proof {
                assert(s1.take(idx + 1).drop_last() =~= s1.take(idx as int));
                assert(s1.take(idx + 1).last() == s1[idx as int]);
                lemma_count_kind_take_le(s1, idx + 1, ModelKind::Player);
                lemma_count_kind_take_le(s1, idx + 1, ModelKind::Other);
                lemma_entities_map_index(s1.take(idx as int));
                assert(entities_map(s1.take(idx + 1)) == entities_map(
                    s1.take(idx as int),
                ).insert(s1[idx as int].id, s1[idx as int]));
            }
            if triples_contain(ts, e.id) {
                let ghost kept_pre = kept@;
                kept.push(e);
                proof {
                    lemma_entities_map_push(kept_pre, e);
                    lemma_count_kind_push(kept_pre, e, ModelKind::Player);
                    lemma_count_kind_push(kept_pre, e, ModelKind::Other);
                    assert(distinct_ids(kept_pre.push(e))) by {
                        assert forall|a: int| 0 <= a < kept_pre.len() implies (
                        #[trigger] kept_pre[a]).id != e.id by {
                            let b = choose|b: int| 0 <= b < idx && #[trigger] kept_pre[a] == s1[b];
                            assert(s1[b].id != s1[idx as int].id);
                        }
                    }
                    assert(entities_map(kept_pre.push(e)) =~= entities_map(
                        s1.take(idx + 1),
                    ).restrict(ids));
                    assert(entities_map(s1.take(idx + 1)).dom().difference(ids)
                        =~= entities_map(s1.take(idx as int)).dom().difference(ids));
                }
            } else {
                proof {
                    assert(count_kind(s1.take(idx + 1), e.model) == count_kind(
                        s1.take(idx as int),
                        e.model,
                    ) + 1);
                    assert(self.registry.spec_live(e.model) >= 1);
                    assert(entities_map(kept@) =~= entities_map(s1.take(idx + 1)).restrict(ids));
                    assert(!entities_map(s1.take(idx as int)).dom().contains(e.id)) by {
                        if entities_map(s1.take(idx as int)).dom().contains(e.id) {
                            let j = choose|j: int|
                                0 <= j < s1.take(idx as int).len() && (#[trigger] s1.take(
                                    idx as int,
                                )[j]).id == e.id;
                            assert(s1[j].id == s1[idx as int].id);
                        }
                    }
                    assert(entities_map(s1.take(idx + 1)).dom().difference(ids)
                        =~= entities_map(s1.take(idx as int)).dom().difference(ids).insert(e.id));
                    assert(!entities_map(s1.take(idx as int)).dom().difference(ids).contains(
                        e.id,
                    ));
                    lemma_len_subset(
                        entities_map(s1.take(idx as int)).dom().difference(ids),
                        entities_map(s1.take(idx as int)).dom(),
                    );
                }
                self.registry.remove(e.model);
            }
            idx = idx + 1;
        }
        self.entities = kept;
        proof {
            assert(s1.take(len as int) =~= s1);
            lemma_upsert_all_char(m0, pid, ts@);
            assert(entities_map(s1).dom().difference(ids) =~= evicted_ids(m0, ts@));
        }
    }

    /// Applies one decoded command: `init` assigns the player id (last
    /// value wins when it is repeated), `update` reconciles the snapshot.
    pub fn apply_command(&mut self, cmd: &Command)
        requires
            old(self).wf(),
        ensures
            final(self).wf(),
            final(self)@ == spec_apply(old(self)@, cmd@),
            final(self).registry.attach_count() == old(self).registry.attach_count()
                + spec_attaches(old(self)@, cmd@),
            final(self).registry.remove_count() == old(self).registry.remove_count()
                + spec_removes(old(self)@, cmd@),
            cmd@ is Init ==> final(self).entities == old(self).entities && final(self).registry
                == old(self).registry,
    {
        match cmd {
            Command::Init(id) => {
                self.player_id = *id;
            },
            Command::Update(ts) => {
                self.apply_update(ts);
            },
        }
    }

    /// Drains one raw chunk from the transport: decodes it and applies each
    /// well-formed command in arrival order. A chunk that decodes to no
    /// command — malformed, unknown or foreign lines only — leaves the
    /// session untouched and makes no Model Registry call.
    pub fn handle_chunk(&mut self, bytes: &Vec<u8>)
        requires
            old(self).wf(),
        ensures
            final(self).wf(),
            final(self)@ == spec_apply_all(old(self)@, spec_decode_chunk(bytes@)),
            final(self).registry.attach_count() == old(self).registry.attach_count()
                + spec_attaches_all(old(self)@, spec_decode_chunk(bytes@)),
            final(self).registry.remove_count() == old(self).registry.remove_count()
                + spec_removes_all(old(self)@, spec_decode_chunk(bytes@)),
            spec_decode_chunk(bytes@).len() == 0 ==> *final(self) == *old(self),
    {
        let ghost st0 = self@;
        let ghost a0 = self.registry.attach_count();
        let ghost r0 = self.registry.remove_count();
        let cmds = decode_chunk(bytes);
        let ghost cvs = cmds@.map_values(|c: Command| c@);
        let n = cmds.len();
        let mut i: usize = 0;
        proof {
            assert(cvs.take(0) =~= Seq::<CmdView>::empty());
            assert(spec_attaches_all(st0, Seq::<CmdView>::empty()) == 0);
            assert(spec_removes_all(st0, Seq::<CmdView>::empty()) == 0);
        }
        while i < n
            invariant
                i <= n,
                n == cmds@.len(),
                cvs == cmds@.map_values(|c: Command| c@),
                self.wf(),
                self@ == spec_apply_all(st0, cvs.take(i as int)),
                self.registry.attach_count() == a0 + spec_attaches_all(st0, cvs.take(i as int)),
                self.registry.remove_count() == r0 + spec_removes_all(st0, cvs.take(i as int)),
                n == 0 ==> *self == *old(self),
            decreases n - i,
        {
            let ghost pre = cvs.take(i as int);
            proof {
                assert(cvs.take(i + 1) =~= pre.push(cvs[i as int]));
                assert(cvs[i as int] == cmds@[i as int]@);
                lemma_apply_all_snoc(st0, pre, cvs[i as int]);
            }
            self.apply_command(&cmds[i]);
            i = i + 1;
        }
        proof {
            assert(cvs.take(n as int) =~= cvs);
        }
    }

    /// The entity currently known under this id, if any.
    pub fn lookup(&self, id: u32) -> (r: Option<Entity>)
        requires
            self.wf(),
        ensures
            match r {
                Some(e) => self@.entities.dom().contains(id) && self@.entities[id] == e,
                None => !self@.entities.dom().contains(id),
            },
    {
        proof {
            lemma_entities_map_index(self.entities@);
        }
        match find_entity(&self.entities, id) {
            Some(i) => Some(self.entities[i]),
            None => {
                proof {
                    if self@.entities.dom().contains(id) {
                        let i = choose|i: int|
                            0 <= i < self.entities@.len() && (#[trigger] self.entities@[i]).id
                                == id;
                    }
                }
                None
            },
        }
    }
}

/// Applying the same `update` command twice in a row leaves the session's
/// observable state — ids, positions and model assignments — unchanged
/// after the second application.
pub proof fn lemma_update_command_idempotent(st: SessionView, ts: Seq<(u32, i32, i32)>)
    ensures
        spec_apply(spec_apply(st, CmdView::Update(ts)), CmdView::Update(ts)) == spec_apply(
            st,
            CmdView::Update(ts),
        ),
        spec_attaches(spec_apply(st, CmdView::Update(ts)), CmdView::Update(ts)) == 0,
        spec_removes(spec_apply(st, CmdView::Update(ts)), CmdView::Update(ts)) == 0,
{
    lemma_reconcile_idempotent(st.entities, st.player_id, ts);
    lemma_reconcile_dom(st.entities, st.player_id, ts);
    let r = spec_reconcile(st.entities, st.player_id, ts);
    assert(created_ids(r, ts) =~= Set::<u32>::empty());
    assert(evicted_ids(r, ts) =~= Set::<u32>::empty());
}

/// Model-instance accounting: at every point, the attach calls ever made on
/// the Model Registry minus the remove calls equal the entity set's size —
/// no instance leaks and none is released twice.
pub proof fn lemma_instance_accounting(s: &Session)
    requires
        s.wf(),
    ensures
        s.registry.attach_count() - s.registry.remove_count() == s@.entities.dom().len(),
{
    lemma_count_kind_total(s.entities@);
    lemma_entities_map_index(s.entities@);
}

} // verus!
