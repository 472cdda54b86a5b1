//! Applying a decoded transaction: the tree decides, the toolkit's row tables
//! do the work. Every refusal the tree can make of the transaction is found
//! on a sketch of the tree first, so a refused transaction creates, updates
//! and moves nothing.
use vstd::prelude::*;
use crate::plan::{create_step, first_detached, op_step, place_step, refusal, run, up_to, Sketch};
use crate::protocol::{CallResult, Reply};
use crate::registry::{creation_counts, kinds_below, kinds_known, Op, Prepared, Registry};
use crate::tree::{host_error_text, live, Delivery, Host, HostError, Node, ROOT};

verus! {

/// The toolkit's side of a transaction: one row table per component kind,
/// holding each node's component, which the tree names by kind and slot.
pub trait Tables<P> {
    /// Makes room for `count` new rows of `kind`.
    fn reserve(&mut self, kind: u16, count: usize);

    /// Creates the row of node `id` of this generation from its props, and
    /// returns its slot.
    fn create(&mut self, kind: u16, id: u32, generation: u16, props: P, events: bool) -> Result<u32, String>;

    fn set_props(&mut self, kind: u16, slot: u32, props: P) -> Result<(), String>;

    fn remove(&mut self, kind: u16, slot: u32);

    /// Tells a view its visible children changed.
    fn set_children(&mut self, kind: u16, slot: u32, children: Vec<u32>);

    /// Tells a view that one of its direct children changed inside.
    fn child_changed(&mut self, kind: u16, slot: u32, child: u32);

    /// Runs a command and returns its answer.
    fn command(&mut self, kind: u16, slot: u32, value: P) -> Result<P, String>;

    fn query(&mut self, kind: u16, slot: u32, value: P) -> Result<P, String>;

    /// Queues a route change behind the view's pending events; the toolkit
    /// calls `Host::settle` with these values when it runs.
    fn defer_route(&mut self, id: u32, generation: u16, subscription: u32);
}

/// The sketch of a tree once a transaction has begun: no node created yet.
pub open spec fn begun(host: Host) -> Sketch {
    Sketch { nodes: host.nodes(), subscribed: host.subscribed(), requested: host.requested(), fresh: Seq::empty() }
}

/// The tree's nodes and lists are as they were.
pub open spec fn unchanged(after: Host, before: Host) -> bool {
    &&& after.nodes() == before.nodes()
    &&& forall|q: u32| #[trigger] after.list(q) == before.list(q)
}

/// Why a transaction was not applied, or not applied whole.
#[derive(Clone, Debug, PartialEq, Eq)]
pub enum ApplyError {
    /// The tree refused the transaction; nothing changed.
    Refused(HostError),
    /// An operation names a component the registry does not hold; nothing
    /// changed.
    UnknownKind,
    /// The toolkit's own work failed; the session must end.
    Toolkit(String),
}

impl ApplyError {
    /// The human-readable message of this error; `registry` names the
    /// components of the tree's refusals.
    pub fn message(&self, registry: &Registry) -> (r: String)
        ensures
            r@ == match *self {
                ApplyError::Refused(e) => host_error_text(e, registry.names()),
                ApplyError::UnknownKind => "unknown component kind"@,
                ApplyError::Toolkit(m) => m@,
            },
    {
        match self {
            ApplyError::Refused(e) => e.message(registry),
            ApplyError::UnknownKind => "unknown component kind".to_string(),
            ApplyError::Toolkit(m) => m.clone(),
        }
    }
}

/// The sketch agrees with the tree on everything its checks read: the
/// records' components, the parents of the nodes in use, and the counters.
pub open spec fn agrees(s: Sketch, h: Host) -> bool {
    &&& s.nodes.len() == h.nodes().len()
    &&& forall|x: int| 0 <= x < s.nodes.len() ==> (#[trigger] s.nodes[x]).kind == h.nodes()[x].kind
    &&& forall|x: u32| #[trigger] live(s.nodes, x) ==> s.nodes[x as int].parent == h.nodes()[x as int].parent
    &&& s.subscribed == h.subscribed()
    &&& s.requested == h.requested()
    &&& s.fresh == h.fresh()
}

/// Records that agree on components and on the parents of nodes in use
/// walk up alike.
proof fn lemma_same_walk(a: Seq<Node>, b: Seq<Node>, anc: u32, x: u32, fuel: nat)
    requires
        a.len() == b.len(),
        forall|y: int| 0 <= y < a.len() ==> (#[trigger] a[y]).kind == b[y].kind,
        forall|y: u32| #[trigger] live(a, y) ==> a[y as int].parent == b[y as int].parent,
    ensures
        up_to(a, anc, x, fuel) == up_to(b, anc, x, fuel),
    decreases fuel,
{
    if x != anc && fuel > 0 {
        if (x as int) < a.len() {
            assert(a[x as int].kind == b[x as int].kind);
        }
        if live(a, x) {
            lemma_same_walk(a, b, anc, a[x as int].parent, (fuel - 1) as nat);
        }
    }
}

/// An agreeing sketch refuses a placement exactly as the tree does.
proof fn lemma_agreeing_place(s: Sketch, h: Host, parent: Option<u32>, child: u32, before: Option<u32>)
    requires
        h.wf(),
        agrees(s, h),
    ensures
        match place_step(s, h.reg().caps(), parent, child, before) {
            Err(e) => h.place_error(parent, child, before) == Some(e),
            Ok(_) => h.place_error(parent, child, before) is None,
        },
{
    let target = match parent {
        Some(id) => id,
        None => ROOT,
    };
    h.lemma_rehearsed_place(parent, child, before);
    lemma_same_walk(s.nodes, h.nodes(), child, target, s.nodes.len());
    if (target as int) < s.nodes.len() {
        assert(s.nodes[target as int].kind == h.nodes()[target as int].kind);
    }
    if (child as int) < s.nodes.len() {
        assert(s.nodes[child as int].kind == h.nodes()[child as int].kind);
    }
    if let Some(a) = before {
        if (a as int) < s.nodes.len() {
            assert(s.nodes[a as int].kind == h.nodes()[a as int].kind);
        }
    }
}

/// An agreeing sketch finds the same unplaced node as the tree.
proof fn lemma_agreeing_detached(s: Sketch, h: Host, ids: Seq<u32>)
    requires
        agrees(s, h),
    ensures
        first_detached(s.nodes, ids) == h.unattached(ids),
    decreases ids.len(),
{
    if ids.len() > 0 {
        if (ids[0] as int) < s.nodes.len() {
            assert(s.nodes[ids[0] as int].kind == h.nodes()[ids[0] as int].kind);
        }
        if live(s.nodes, ids[0]) {
            assert(s.nodes[ids[0] as int].parent == h.nodes()[ids[0] as int].parent);
        }
        lemma_agreeing_detached(s, h, ids.drop_first());
    }
}

fn deliver<P, T: Tables<P>>(tables: &mut T, deliveries: &Vec<Delivery>) {
    let mut i: usize = 0;
    while i < deliveries.len()
        invariant
            i <= deliveries@.len(),
        decreases deliveries@.len() - i,
    {
        let d = &deliveries[i];
        tables.set_children(d.kind, d.slot, d.children.clone());
        i = i + 1;
    }
}

fn invalidate<P, T: Tables<P>>(host: &Host, tables: &mut T, id: u32)
    requires
        host.wf(),
{
    if let Some((kind, slot, child)) = host.invalidate(id) {
        tables.child_changed(kind, slot, child);
    }
}

/// Applies one operation that an agreeing sketch accepts. The tree accepts
/// it too; only the toolkit's own work can fail.
#[verifier::rlimit(80)]
fn apply_op<P, T: Tables<P>>(
    host: &mut Host,
    tables: &mut T,
    reply: &mut Reply<P>,
    op: Op<P>,
    Ghost(sk): Ghost<Sketch>,
) -> (r: Result<(), ApplyError>)
    requires
        old(host).wf(),
        agrees(sk, *old(host)),
        op_step(sk, old(host).reg().caps(), op) is Ok,
        op matches Op::Create { kind, .. } ==> kind < old(host).reg().entries().len(),
    ensures
        final(host).wf(),
        final(host).reg() == old(host).reg(),
        final(host).applied() == old(host).applied(),
        final(host).upcoming() == old(host).upcoming(),
        final(reply).sequence == old(reply).sequence,
        old(host).detached_are_fresh() ==> final(host).detached_are_fresh(),
        !(r matches Err(ApplyError::Refused(_))),
        r is Ok ==> agrees(op_step(sk, old(host).reg().caps(), op)->Ok_0, *final(host)),
{
    let ghost caps = host.reg().caps();
    let ghost h0 = *host;
    let ghost next = op_step(sk, caps, op)->Ok_0;
    match op {
        Op::Create { id, kind, props, subscription, place } => {
            let ghost t0 = create_step(sk, caps, id, kind, subscription)->Ok_0;
            proof {
                if (id as int) < sk.nodes.len() {
                    assert(sk.nodes[id as int].kind == h0.nodes()[id as int].kind);
                }
            }
            let generation = match host.prepare_create(id, kind, subscription) {
                Ok(g) => g,
                Err(e) => {
                    return Err(ApplyError::Refused(e));
                },
            };
            let events = host.registry().registration(kind).capabilities.events;
            let slot = match tables.create(kind, id, generation, props, events) {
                Ok(slot) => slot,
                Err(e) => {
                    return Err(ApplyError::Toolkit(e));
                },
            };
            let route: u32 = match subscription {
                Some(v) => v as u32,
                None => 0,
            };
            let ghost h1 = *host;
            match host.install(id, kind, slot, route) {
                Ok(()) => {},
                Err(e) => {
                    return Err(ApplyError::Refused(e));
                },
            }
            proof {
                assert forall|x: int| 0 <= x < t0.nodes.len() implies (#[trigger] t0.nodes[x]).kind
                    == host.nodes()[x].kind by {
                    if x < sk.nodes.len() {
                        assert(sk.nodes[x].kind == h0.nodes()[x].kind);
                    }
                }
                assert forall|x: u32| #[trigger] live(t0.nodes, x) implies t0.nodes[x as int].parent
                    == host.nodes()[x as int].parent by {
                    if x != id {
                        assert(live(sk.nodes, x));
                    }
                }
                assert(agrees(t0, *host));
            }
            if let Some((parent, before)) = place {
                proof {
                    lemma_agreeing_place(t0, *host, parent, id, before);
                }
                let ghost h2 = *host;
                match host.place(parent, id, before) {
                    Ok(()) => {},
                    Err(e) => {
                        return Err(ApplyError::Refused(e));
                    },
                }
                proof {
                    if before != Some(id) {
                        assert forall|x: int| 0 <= x < next.nodes.len() implies (#[trigger] next.nodes[x]).kind
                            == host.nodes()[x].kind by {
                            assert(t0.nodes[x].kind == h2.nodes()[x].kind);
                        }
                        assert forall|x: u32| #[trigger] live(next.nodes, x) implies next.nodes[x as int].parent
                            == host.nodes()[x as int].parent by {
                            assert(live(t0.nodes, x));
                        }
                    }
                }
            }
            Ok(())
        },
        Op::Props { id, kind, props } => {
            proof {
                if (id as int) < sk.nodes.len() {
                    assert(sk.nodes[id as int].kind == h0.nodes()[id as int].kind);
                }
            }
            let node = match host.checked(id, kind) {
                Ok(node) => node,
                Err(e) => {
                    return Err(ApplyError::Refused(e));
                },
            };
            match tables.set_props(kind, node.slot, props) {
                Ok(()) => {},
                Err(e) => {
                    return Err(ApplyError::Toolkit(e));
                },
            }
            invalidate(host, tables, id);
            Ok(())
        },
        Op::Listen { id, subscription } => {
            proof {
                if (id as int) < sk.nodes.len() {
                    assert(sk.nodes[id as int].kind == h0.nodes()[id as int].kind);
                }
            }
            let listened = match host.listen(id, subscription) {
                Ok(l) => l,
                Err(e) => {
                    return Err(ApplyError::Refused(e));
                },
            };
            if let Some(retired) = listened.retired {
                reply.retired.push(retired);
            }
            if let Some((generation, route)) = listened.deferred {
                tables.defer_route(id, generation, route);
            }
            proof {
                assert forall|x: int| 0 <= x < next.nodes.len() implies (#[trigger] next.nodes[x]).kind
                    == host.nodes()[x].kind by {
                    assert(sk.nodes[x].kind == h0.nodes()[x].kind);
                }
            }
            Ok(())
        },
        Op::Place { parent, child, before } => {
            proof {
                lemma_agreeing_place(sk, h0, parent, child, before);
            }
            match host.place(parent, child, before) {
                Ok(()) => {},
                Err(e) => {
                    return Err(ApplyError::Refused(e));
                },
            }
            proof {
                if before != Some(child) {
                    assert forall|x: int| 0 <= x < next.nodes.len() implies (#[trigger] next.nodes[x]).kind
                        == host.nodes()[x].kind by {
                        assert(sk.nodes[x].kind == h0.nodes()[x].kind);
                    }
                    assert forall|x: u32| #[trigger] live(next.nodes, x) implies next.nodes[x as int].parent
                        == host.nodes()[x as int].parent by {
                        assert(live(sk.nodes, x));
                    }
                }
            }
            Ok(())
        },
        Op::Remove { id } => {
            proof {
                if (id as int) < sk.nodes.len() {
                    assert(sk.nodes[id as int].kind == h0.nodes()[id as int].kind);
                }
            }
            let released = match host.remove(id, &mut reply.retired) {
                Ok(v) => v,
                Err(e) => {
                    return Err(ApplyError::Refused(e));
                },
            };
            proof {
                assert forall|x: int| 0 <= x < next.nodes.len() implies (#[trigger] next.nodes[x]).kind
                    == host.nodes()[x].kind by {
                    h0.lemma_len_bound();
                    let y = x as u32;
                    assert(y as int == x);
                    assert(sk.nodes[x].kind == h0.nodes()[x].kind);
                    lemma_same_walk(sk.nodes, h0.nodes(), id, y, sk.nodes.len());
                    h0.lemma_above_in(id, y);
                    assert(host.nodes()[y as int] == host.nodes()[x]);
                }
                assert forall|x: u32| #[trigger] live(next.nodes, x) implies next.nodes[x as int].parent
                    == host.nodes()[x as int].parent by {
                    assert(sk.nodes[x as int].kind == h0.nodes()[x as int].kind);
                    lemma_same_walk(sk.nodes, h0.nodes(), id, x, sk.nodes.len());
                    h0.lemma_above_in(id, x);
                    assert(live(sk.nodes, x));
                }
            }
            let mut i: usize = 0;
            while i < released.len()
                invariant
                    i <= released@.len(),
                decreases released@.len() - i,
            {
                tables.remove(released[i].1.kind, released[i].1.slot);
                i = i + 1;
            }
            Ok(())
        },
        Op::Hidden { id, hidden } => {
            proof {
                if (id as int) < sk.nodes.len() {
                    assert(sk.nodes[id as int].kind == h0.nodes()[id as int].kind);
                }
            }
            match host.set_hidden(id, hidden) {
                Ok(()) => {},
                Err(e) => {
                    return Err(ApplyError::Refused(e));
                },
            }
            proof {
                assert forall|x: int| 0 <= x < next.nodes.len() implies (#[trigger] next.nodes[x]).kind
                    == host.nodes()[x].kind by {
                    assert(sk.nodes[x].kind == h0.nodes()[x].kind);
                }
            }
            Ok(())
        },
        Op::Call { id, kind, request, command, value } => {
            match host.begin_call(request) {
                Ok(()) => {},
                Err(e) => {
                    return Err(ApplyError::Refused(e));
                },
            }
            // A command may depend on children placed earlier in this
            // transaction, such as a scroll anchor after row supply.
            let owed = host.flush();
            deliver(tables, &owed);
            let answer = match host.call_target(id, kind, value) {
                Ok((node, v)) => if command {
                    tables.command(kind, node.slot, v)
                } else {
                    tables.query(kind, node.slot, v)
                },
                Err(e) => Err(e),
            };
            if command {
                // A command may change state before returning an error.
                invalidate(host, tables, id);
            }
            reply.results.push(CallResult::new(request, answer));
            proof {
                assert forall|x: int| 0 <= x < next.nodes.len() implies (#[trigger] next.nodes[x]).kind
                    == host.nodes()[x].kind by {
                    assert(sk.nodes[x].kind == h0.nodes()[x].kind);
                }
            }
            Ok(())
        },
    }
}

/// Applies a committed transaction. It must follow the last one applied,
/// and every component it names must be registered. The whole transaction
/// is first rehearsed on a sketch of the tree: one the tree refuses,
/// anywhere in it, is refused before any row is created or updated, with
/// the tree as it was; one the sketch accepts the tree accepts too, so it
/// can fail only in the toolkit's own work, which ends the session. A
/// command or query that fails is answered with its error and the
/// transaction goes on.
pub fn apply_prepared<P, T: Tables<P>>(host: &mut Host, tables: &mut T, prepared: Prepared<P>) -> (r: Result<
    Reply<P>,
    ApplyError,
>)
    requires
        old(host).wf(),
    ensures
        final(host).wf(),
        final(host).reg() == old(host).reg(),
        r is Ok ==> final(host).applied() == prepared.sequence && r->Ok_0.sequence == prepared.sequence,
        r is Err ==> final(host).applied() == old(host).applied(),
        r is Ok && old(host).attached() ==> final(host).attached(),
        !(old(host).applied() < u64::MAX && prepared.sequence == old(host).applied() + 1) ==> r == Err::<
            Reply<P>,
            ApplyError,
        >(ApplyError::Refused(HostError::OutOfOrder)) && unchanged(*final(host), *old(host)),
        old(host).applied() < u64::MAX && prepared.sequence == old(host).applied() + 1 && !kinds_below(
            prepared.operations@,
            old(host).reg().entries().len() as int,
        ) ==> r == Err::<Reply<P>, ApplyError>(ApplyError::UnknownKind) && unchanged(*final(host), *old(host)),
        old(host).applied() < u64::MAX && prepared.sequence == old(host).applied() + 1 && kinds_below(
            prepared.operations@,
            old(host).reg().entries().len() as int,
        ) ==> match refusal(begun(*old(host)), old(host).reg().caps(), prepared.operations@) {
            Some(e) => r == Err::<Reply<P>, ApplyError>(ApplyError::Refused(e)) && unchanged(
                *final(host),
                *old(host),
            ),
            None => !(r matches Err(ApplyError::Refused(_))),
        },
{
    let ghost start = *host;
    match host.begin(prepared.sequence) {
        Ok(()) => {},
        Err(e) => {
            return Err(ApplyError::Refused(e));
        },
    }
    proof {
        assert(host.fresh() =~= Seq::<u32>::empty());
        assert(host.sketch() == begun(start));
    }
    let kinds = host.registry().len();
    host.registry().check_well_formed();
    proof {
        host.reg().lemma_unique();
    }
    let Prepared { sequence, operations } = prepared;
    if !kinds_known(&operations, kinds) {
        return Err(ApplyError::UnknownKind);
    }
    match host.rehearse(&operations) {
        Ok(()) => {},
        Err(e) => {
            return Err(ApplyError::Refused(e));
        },
    }
    let ghost ops0 = operations@;
    let ghost caps = start.reg().caps();
    let (_, creates) = creation_counts(&operations, kinds);
    let mut k: usize = 0;
    while k < creates.len()
        invariant
            k <= creates@.len(),
            creates@.len() == kinds,
            kinds <= 65535,
        decreases creates@.len() - k,
    {
        if creates[k] > 0 {
            tables.reserve(k as u16, creates[k]);
        }
        k = k + 1;
    }
    // The operations move from the end of `rest` onto a stack, so that
    // popping the stack yields them in order.
    let mut rest = operations;
    let mut stack: Vec<Op<P>> = Vec::new();
    while rest.len() > 0
        invariant
            kinds_below(rest@, kinds as int),
            kinds_below(stack@, kinds as int),
            rest@ + stack@.reverse() == ops0,
        decreases rest@.len(),
    {
        let ghost r0 = rest@;
        let ghost s0 = stack@;
        let op = rest.pop().unwrap();
        proof {
            assert(op == r0[r0.len() - 1]);
            assert forall|i: int| 0 <= i < rest@.len() implies match #[trigger] rest@[i] {
                Op::Create { kind, .. } => kind < kinds,
                _ => true,
            } by {
                assert(rest@[i] == r0[i]);
            }
        }
        stack.push(op);
        proof {
            assert forall|i: int| 0 <= i < stack@.len() implies match #[trigger] stack@[i] {
                Op::Create { kind, .. } => kind < kinds,
                _ => true,
            } by {
                if i < s0.len() {
                    assert(stack@[i] == s0[i]);
                } else {
                    assert(stack@[i] == r0[r0.len() - 1]);
                }
            }
            assert(stack@.reverse() =~= seq![op] + s0.reverse());
            assert(rest@ + stack@.reverse() =~= r0 + s0.reverse());
        }
    }
    proof {
        assert(stack@.reverse() =~= ops0);
    }
    let ghost mut sk = begun(start);
    let mut reply = Reply { sequence, retired: Vec::new(), results: Vec::new() };
    while stack.len() > 0
        invariant
            start == *old(host),
            host.wf(),
            host.reg() == start.reg(),
            caps == start.reg().caps(),
            host.applied() == start.applied(),
            host.upcoming() == sequence,
            sequence == prepared.sequence,
            reply.sequence == sequence,
            start.attached() ==> host.detached_are_fresh(),
            kinds == host.reg().entries().len(),
            kinds_below(stack@, kinds as int),
            start.applied() < u64::MAX && prepared.sequence == start.applied() + 1,
            kinds_below(prepared.operations@, start.reg().entries().len() as int),
            refusal(begun(start), caps, prepared.operations@) is None,
            agrees(sk, *host),
            run(sk, caps, stack@.reverse()) matches Ok(t) && first_detached(t.nodes, t.fresh) is None,
        decreases stack@.len(),
    {
        let ghost s0 = stack@;
        let op = stack.pop().unwrap();
        proof {
            assert(op == s0[s0.len() - 1]);
            assert(s0.reverse()[0] == op);
            assert(s0.reverse().drop_first() =~= stack@.reverse());
            assert forall|i: int| 0 <= i < stack@.len() implies match #[trigger] stack@[i] {
                Op::Create { kind, .. } => kind < kinds,
                _ => true,
            } by {
                assert(stack@[i] == s0[i]);
            }
        }
        let ghost stepped = op_step(sk, caps, op);
        match apply_op(host, tables, &mut reply, op, Ghost(sk)) {
            Ok(()) => {},
            Err(e) => {
                return Err(e);
            },
        }
        proof {
            sk = stepped->Ok_0;
        }
    }
    proof {
        assert(stack@.reverse().len() == 0);
        lemma_agreeing_detached(sk, *host, sk.fresh);
    }
    let owed = match host.finish() {
        Ok(owed) => owed,
        Err(e) => {
            return Err(ApplyError::Refused(e));
        },
    };
    deliver(tables, &owed);
    Ok(reply)
}

} // verus!
