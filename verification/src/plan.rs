//! A rehearsal of a transaction against the shape of the tree. Before any
//! component is created or updated, every decision the tree will make about
//! the transaction is taken on a sketch of it: which ids are in use and of
//! which component, who is whose parent, and the last subscription and
//! request ids. A transaction the sketch refuses changes nothing.
use vstd::prelude::*;
use crate::registry::{kinds_below, Capabilities, Op, Registry};
use crate::tree::{empty_node, live, HostError, Node, DETACHED, EMPTY_KIND, MAX_SKIP, ROOT};

verus! {

/// What the checks of a transaction read: the node records, the last
/// subscription and request ids accepted, and the nodes created so far.
pub struct Sketch {
    pub nodes: Seq<Node>,
    pub subscribed: u64,
    pub requested: u64,
    pub fresh: Seq<u32>,
}

/// `a` is `x` or one of its ancestors, following at most `fuel` parent links.
pub open spec fn up_to(n: Seq<Node>, a: u32, x: u32, fuel: nat) -> bool
    decreases fuel,
{
    x == a || (fuel > 0 && live(n, x) && n[x as int].parent != ROOT && n[x as int].parent != DETACHED
        && up_to(n, a, n[x as int].parent, (fuel - 1) as nat))
}

/// `a` is `x` or one of its ancestors. A path up has no more links than
/// there are records.
pub open spec fn above_in(n: Seq<Node>, a: u32, x: u32) -> bool {
    up_to(n, a, x, n.len())
}

/// A record that holds a new node of `kind`, detached.
pub open spec fn new_node(kind: u16) -> Node {
    Node { kind, parent: DETACHED, ..empty_node(0) }
}

/// What placing `child` under `parent` before `before` refuses, in the order
/// the tree checks, or the sketch after it.
pub open spec fn place_step(
    s: Sketch,
    caps: Seq<Capabilities>,
    parent: Option<u32>,
    child: u32,
    before: Option<u32>,
) -> Result<Sketch, HostError> {
    let n = s.nodes;
    let target = match parent {
        Some(id) => id,
        None => ROOT,
    };
    if parent is Some && !live(n, target) {
        Err(HostError::Unknown(target))
    } else if parent is Some && !caps[n[target as int].kind as int].children {
        Err(HostError::NoChildren)
    } else if !live(n, child) {
        Err(HostError::Unknown(child))
    } else if above_in(n, child, target) {
        Err(HostError::Cycle)
    } else if before == Some(child) {
        Ok(s)
    } else {
        match before {
            Some(a) => if !live(n, a) {
                Err(HostError::Unknown(a))
            } else if n[a as int].parent != target {
                Err(HostError::BadAnchor)
            } else {
                Ok(Sketch { nodes: n.update(child as int, Node { parent: target, ..n[child as int] }), ..s })
            },
            None => Ok(Sketch { nodes: n.update(child as int, Node { parent: target, ..n[child as int] }), ..s }),
        }
    }
}

/// What creating node `id` of `kind` refuses, in the order the tree checks,
/// or the sketch after it: the records grow to hold the id, which holds a
/// new detached node.
pub open spec fn create_step(
    s: Sketch,
    caps: Seq<Capabilities>,
    id: u32,
    kind: u16,
    subscription: Option<u64>,
) -> Result<Sketch, HostError> {
    let n = s.nodes;
    if id >= DETACHED {
        Err(HostError::IdOutOfRange)
    } else if id as int > n.len() + MAX_SKIP {
        Err(HostError::SkipsTooFar(id))
    } else if live(n, id) {
        Err(HostError::InUse(id))
    } else if subscription is Some && !(s.subscribed < subscription->0 && subscription->0 < 0x1_0000_0000) {
        Err(HostError::SubscriptionOrder)
    } else if subscription is Some && !caps[kind as int].events {
        Err(HostError::NoEvents(kind))
    } else {
        let grown = if (id as int) < n.len() {
            n
        } else {
            n + Seq::new((id + 1 - n.len()) as nat, |i: int| empty_node(0))
        };
        Ok(
            Sketch {
                nodes: grown.update(id as int, new_node(kind)),
                subscribed: match subscription {
                    Some(v) => v,
                    None => s.subscribed,
                },
                requested: s.requested,
                fresh: s.fresh.push(id),
            },
        )
    }
}

/// A free record.
pub open spec fn freed(n: Node) -> Node {
    Node { kind: EMPTY_KIND, parent: DETACHED, ..n }
}

/// What removing `id` refuses, or the sketch after it: `id` and everything
/// under it are free.
pub open spec fn remove_step(s: Sketch, id: u32) -> Result<Sketch, HostError> {
    let n = s.nodes;
    if !live(n, id) {
        Err(HostError::Unknown(id))
    } else {
        Ok(
            Sketch {
                nodes: Seq::new(
                    n.len(),
                    |x: int|
                        if above_in(n, id, x as u32) {
                            freed(n[x])
                        } else {
                            n[x]
                        },
                ),
                ..s
            },
        )
    }
}

/// What one operation refuses, or the sketch after it. A command or query
/// refuses only a request id that does not increase; what it runs on is
/// that call's own answer.
pub open spec fn op_step<P>(s: Sketch, caps: Seq<Capabilities>, op: Op<P>) -> Result<Sketch, HostError> {
    match op {
        Op::Create { id, kind, subscription, place, .. } => match create_step(s, caps, id, kind, subscription) {
            Err(e) => Err(e),
            Ok(t) => match place {
                Some((parent, before)) => place_step(t, caps, parent, id, before),
                None => Ok(t),
            },
        },
        Op::Props { id, kind, .. } => if !live(s.nodes, id) {
            Err(HostError::Unknown(id))
        } else if s.nodes[id as int].kind != kind {
            Err(HostError::Mismatch(id))
        } else {
            Ok(s)
        },
        Op::Listen { id, subscription } => if !(subscription is None || (s.subscribed < subscription->0
            && subscription->0 < 0x1_0000_0000)) {
            Err(HostError::SubscriptionOrder)
        } else if !live(s.nodes, id) {
            Err(HostError::Unknown(id))
        } else if subscription is Some && !caps[s.nodes[id as int].kind as int].events {
            Err(HostError::ViewNoEvents)
        } else {
            Ok(
                Sketch {
                    subscribed: match subscription {
                        Some(v) => v,
                        None => s.subscribed,
                    },
                    ..s
                },
            )
        },
        Op::Place { parent, child, before } => place_step(s, caps, parent, child, before),
        Op::Remove { id } => remove_step(s, id),
        Op::Hidden { id, .. } => if !live(s.nodes, id) {
            Err(HostError::Unknown(id))
        } else {
            Ok(s)
        },
        Op::Call { request, .. } => if !(s.requested < request && request < 0x1_0000_0000) {
            Err(HostError::RequestOrder)
        } else {
            Ok(Sketch { requested: request, ..s })
        },
    }
}

/// The operations taken in order: the first refusal, or the sketch after all.
pub open spec fn run<P>(s: Sketch, caps: Seq<Capabilities>, ops: Seq<Op<P>>) -> Result<Sketch, HostError>
    decreases ops.len(),
{
    if ops.len() == 0 {
        Ok(s)
    } else {
        match op_step(s, caps, ops[0]) {
            Err(e) => Err(e),
            Ok(t) => run(t, caps, ops.drop_first()),
        }
    }
}

/// The first of `ids` that holds a detached node, if any.
pub open spec fn first_detached(n: Seq<Node>, ids: Seq<u32>) -> Option<u32>
    decreases ids.len(),
{
    if ids.len() == 0 {
        None
    } else if live(n, ids[0]) && n[ids[0] as int].parent == DETACHED {
        Some(ids[0])
    } else {
        first_detached(n, ids.drop_first())
    }
}

/// What the tree refuses of a transaction's operations on `s`, if anything:
/// the first refused operation, or else a node it created and never placed.
pub open spec fn refusal<P>(s: Sketch, caps: Seq<Capabilities>, ops: Seq<Op<P>>) -> Option<HostError> {
    match run(s, caps, ops) {
        Err(e) => Some(e),
        Ok(t) => match first_detached(t.nodes, t.fresh) {
            Some(x) => Some(HostError::NotAttached(x)),
            None => None,
        },
    }
}

/// Every node of the sketch is of a registered component, and its records
/// fit below the link sentinels.
pub open spec fn sound(s: Sketch, caps: Seq<Capabilities>) -> bool {
    &&& s.nodes.len() <= DETACHED
    &&& forall|x: u32| #[trigger] live(s.nodes, x) ==> s.nodes[x as int].kind < caps.len()
}

/// The sketch in executable form.
pub struct Rehearsal {
    pub nodes: Vec<Node>,
    pub subscribed: u64,
    pub requested: u64,
    pub fresh: Vec<u32>,
}

impl View for Rehearsal {
    type V = Sketch;

    open spec fn view(&self) -> Sketch {
        Sketch { nodes: self.nodes@, subscribed: self.subscribed, requested: self.requested, fresh: self.fresh@ }
    }
}

/// Whether `a` is `x` or one of its ancestors, walking at most as many
/// parent links as there are records.
fn is_above(nodes: &Vec<Node>, a: u32, x: u32) -> (b: bool)
    ensures
        b == above_in(nodes@, a, x),
{
    let mut cur = x;
    let mut fuel = nodes.len();
    while fuel > 0
        invariant
            fuel <= nodes@.len(),
            above_in(nodes@, a, x) == up_to(nodes@, a, cur, fuel as nat),
        decreases fuel,
    {
        if cur == a {
            return true;
        }
        if (cur as usize) >= nodes.len() || nodes[cur as usize].kind == EMPTY_KIND {
            return false;
        }
        let p = nodes[cur as usize].parent;
        if p == ROOT || p == DETACHED {
            return false;
        }
        cur = p;
        fuel = fuel - 1;
    }
    cur == a
}

fn is_live(nodes: &Vec<Node>, id: u32) -> (b: bool)
    ensures
        b == live(nodes@, id),
{
    (id as usize) < nodes.len() && nodes[id as usize].kind != EMPTY_KIND
}

impl Rehearsal {
    fn place(&mut self, reg: &Registry, parent: Option<u32>, child: u32, before: Option<u32>) -> (r: Result<(), HostError>)
        requires
            sound(old(self)@, reg.caps()),
        ensures
            match place_step(old(self)@, reg.caps(), parent, child, before) {
                Ok(t) => r is Ok && final(self)@ == t && sound(t, reg.caps()),
                Err(e) => r == Err::<(), HostError>(e),
            },
    {
        let target = match parent {
            Some(id) => {
                if !is_live(&self.nodes, id) {
                    return Err(HostError::Unknown(id));
                }
                let kind = self.nodes[id as usize].kind;
                proof {
                    assert(reg.caps()[kind as int] == reg.entries()[kind as int].capabilities);
                }
                if !reg.registration(kind).capabilities.children {
                    return Err(HostError::NoChildren);
                }
                id
            },
            None => ROOT,
        };
        if !is_live(&self.nodes, child) {
            return Err(HostError::Unknown(child));
        }
        if is_above(&self.nodes, child, target) {
            return Err(HostError::Cycle);
        }
        if before == Some(child) {
            return Ok(());
        }
        if let Some(a) = before {
            if !is_live(&self.nodes, a) {
                return Err(HostError::Unknown(a));
            }
            if self.nodes[a as usize].parent != target {
                return Err(HostError::BadAnchor);
            }
        }
        let node = self.nodes[child as usize];
        self.nodes.set(child as usize, Node { parent: target, ..node });
        proof {
            assert(self@ == Sketch {
                nodes: old(self)@.nodes.update(child as int, Node { parent: target, ..old(self)@.nodes[child as int] }),
                ..old(self)@
            });
            assert forall|x: u32| #[trigger] live(self@.nodes, x) implies self@.nodes[x as int].kind
                < reg.caps().len() by {
                assert(live(old(self)@.nodes, x));
            }
        }
        Ok(())
    }

    fn create(&mut self, reg: &Registry, id: u32, kind: u16, subscription: Option<u64>) -> (r: Result<(), HostError>)
        requires
            sound(old(self)@, reg.caps()),
            kind < reg.caps().len(),
        ensures
            match create_step(old(self)@, reg.caps(), id, kind, subscription) {
                Ok(t) => r is Ok && final(self)@ == t && sound(t, reg.caps()),
                Err(e) => r == Err::<(), HostError>(e),
            },
    {
        if id >= DETACHED {
            return Err(HostError::IdOutOfRange);
        }
        let index = id as usize;
        if index > self.nodes.len() && index - self.nodes.len() > MAX_SKIP {
            return Err(HostError::SkipsTooFar(id));
        }
        if is_live(&self.nodes, id) {
            return Err(HostError::InUse(id));
        }
        if let Some(sub) = subscription {
            if !(self.subscribed < sub && sub < 0x1_0000_0000) {
                return Err(HostError::SubscriptionOrder);
            }
            proof {
                assert(reg.caps()[kind as int] == reg.entries()[kind as int].capabilities);
            }
            if !reg.registration(kind).capabilities.events {
                return Err(HostError::NoEvents(kind));
            }
        }
        let ghost n = self.nodes@;
        let ghost grown = if (id as int) < n.len() {
            n
        } else {
            n + Seq::new((id + 1 - n.len()) as nat, |i: int| empty_node(0))
        };
        while self.nodes.len() <= index
            invariant
                self.subscribed == old(self).subscribed,
                self.requested == old(self).requested,
                self.fresh@ == old(self).fresh@,
                n == old(self).nodes@,
                index == id as usize,
                id < DETACHED,
                n.len() <= self.nodes@.len(),
                self.nodes@.len() <= (if (id as int) < n.len() { n.len() as int } else { id + 1 }),
                forall|x: int| 0 <= x < n.len() ==> #[trigger] self.nodes@[x] == n[x],
                forall|x: int| n.len() <= x < self.nodes@.len() ==> #[trigger] self.nodes@[x] == empty_node(0),
            decreases index + 1 - self.nodes@.len(),
        {
            self.nodes.push(Node::empty(0));
        }
        assert(self.nodes@ =~= grown);
        self.nodes.set(index, Node { kind, parent: DETACHED, ..Node::empty(0) });
        if let Some(v) = subscription {
            self.subscribed = v;
        }
        self.fresh.push(id);
        proof {
            assert(self.nodes@ == grown.update(id as int, new_node(kind)));
            assert(self.subscribed == match subscription {
                Some(v) => v,
                None => old(self).subscribed,
            });
            assert(self.fresh@ == old(self).fresh@.push(id));
            assert(create_step(old(self)@, reg.caps(), id, kind, subscription) == Ok::<Sketch, HostError>(self@));
            assert forall|x: u32| #[trigger] live(self@.nodes, x) implies self@.nodes[x as int].kind
                < reg.caps().len() by {
                if x != id {
                    assert(live(n, x));
                }
            }
        }
        Ok(())
    }

    fn remove(&mut self, reg: &Registry, id: u32) -> (r: Result<(), HostError>)
        requires
            sound(old(self)@, reg.caps()),
        ensures
            match remove_step(old(self)@, id) {
                Ok(t) => r is Ok && final(self)@ == t && sound(t, reg.caps()),
                Err(e) => r == Err::<(), HostError>(e),
            },
    {
        if !is_live(&self.nodes, id) {
            return Err(HostError::Unknown(id));
        }
        let ghost n = self.nodes@;
        let len = self.nodes.len();
        let mut gone: Vec<bool> = Vec::new();
        let mut x: usize = 0;
        while x < len
            invariant
                self.subscribed == old(self).subscribed,
                self.requested == old(self).requested,
                self.fresh@ == old(self).fresh@,
                len == n.len(),
                n == self.nodes@,
                len <= DETACHED,
                x <= len,
                gone@.len() == x,
                forall|j: int| 0 <= j < x ==> #[trigger] gone@[j] == above_in(n, id, j as u32),
            decreases len - x,
        {
            let g = is_above(&self.nodes, id, x as u32);
            gone.push(g);
            x = x + 1;
        }
        let mut y: usize = 0;
        while y < len
            invariant
                self.subscribed == old(self).subscribed,
                self.requested == old(self).requested,
                self.fresh@ == old(self).fresh@,
                len == n.len(),
                self.nodes@.len() == len,
                y <= len,
                gone@.len() == len,
                forall|j: int| 0 <= j < len ==> #[trigger] gone@[j] == above_in(n, id, j as u32),
                forall|j: int|
                    0 <= j < y ==> #[trigger] self.nodes@[j] == if above_in(n, id, j as u32) {
                        freed(n[j])
                    } else {
                        n[j]
                    },
                forall|j: int| y <= j < len ==> #[trigger] self.nodes@[j] == n[j],
            decreases len - y,
        {
            if gone[y] {
                let node = self.nodes[y];
                self.nodes.set(y, Node { kind: EMPTY_KIND, parent: DETACHED, ..node });
            }
            y = y + 1;
        }
        proof {
            let t = Seq::new(
                n.len(),
                |x: int|
                    if above_in(n, id, x as u32) {
                        freed(n[x])
                    } else {
                        n[x]
                    },
            );
            assert(self.nodes@ =~= t);
            assert(self@ == Sketch { nodes: t, ..old(self)@ });
            assert forall|x: u32| #[trigger] live(self@.nodes, x) implies self@.nodes[x as int].kind
                < reg.caps().len() by {
                assert(live(n, x));
            }
        }
        Ok(())
    }
}


impl Rehearsal {
    fn step<P>(&mut self, reg: &Registry, op: &Op<P>) -> (r: Result<(), HostError>)
        requires
            sound(old(self)@, reg.caps()),
            op matches Op::Create { kind, .. } ==> kind < reg.caps().len(),
        ensures
            match op_step(old(self)@, reg.caps(), *op) {
                Ok(t) => r is Ok && final(self)@ == t && sound(t, reg.caps()),
                Err(e) => r == Err::<(), HostError>(e),
            },
    {
        match op {
            Op::Create { id, kind, subscription, place, .. } => {
                match self.create(reg, *id, *kind, *subscription) {
                    Err(e) => Err(e),
                    Ok(()) => match place {
                        Some((parent, before)) => self.place(reg, *parent, *id, *before),
                        None => Ok(()),
                    },
                }
            },
            Op::Props { id, kind, .. } => {
                if !is_live(&self.nodes, *id) {
                    Err(HostError::Unknown(*id))
                } else if self.nodes[*id as usize].kind != *kind {
                    Err(HostError::Mismatch(*id))
                } else {
                    Ok(())
                }
            },
            Op::Listen { id, subscription } => {
                if let Some(v) = subscription {
                    if !(self.subscribed < *v && *v < 0x1_0000_0000) {
                        return Err(HostError::SubscriptionOrder);
                    }
                }
                if !is_live(&self.nodes, *id) {
                    return Err(HostError::Unknown(*id));
                }
                let kind = self.nodes[*id as usize].kind;
                proof {
                    assert(reg.caps()[kind as int] == reg.entries()[kind as int].capabilities);
                }
                if subscription.is_some() && !reg.registration(kind).capabilities.events {
                    return Err(HostError::ViewNoEvents);
                }
                if let Some(v) = subscription {
                    self.subscribed = *v;
                }
                Ok(())
            },
            Op::Place { parent, child, before } => self.place(reg, *parent, *child, *before),
            Op::Remove { id } => self.remove(reg, *id),
            Op::Hidden { id, .. } => {
                if !is_live(&self.nodes, *id) {
                    Err(HostError::Unknown(*id))
                } else {
                    Ok(())
                }
            },
            Op::Call { request, .. } => {
                if !(self.requested < *request && *request < 0x1_0000_0000) {
                    Err(HostError::RequestOrder)
                } else {
                    self.requested = *request;
                    Ok(())
                }
            },
        }
    }
}

/// The first of `ids` that holds a detached node, if any.
fn find_detached(nodes: &Vec<Node>, ids: &Vec<u32>) -> (r: Option<u32>)
    ensures
        r == first_detached(nodes@, ids@),
{
    let mut j: usize = 0;
    proof {
        assert(ids@.skip(0) =~= ids@);
    }
    while j < ids.len()
        invariant
            j <= ids@.len(),
            first_detached(nodes@, ids@) == first_detached(nodes@, ids@.skip(j as int)),
        decreases ids@.len() - j,
    {
        let id = ids[j];
        proof {
            assert(ids@.skip(j as int)[0] == id);
            assert(ids@.skip(j as int).drop_first() =~= ids@.skip(j + 1));
        }
        if is_live(nodes, id) && nodes[id as usize].parent == DETACHED {
            return Some(id);
        }
        j = j + 1;
    }
    proof {
        assert(ids@.skip(j as int).len() == 0);
    }
    None
}

/// Takes `ops` in order on the sketch: the tree's refusal of them, if any.
pub(crate) fn rehearse<P>(rehearsal: &mut Rehearsal, reg: &Registry, ops: &Vec<Op<P>>) -> (r: Result<(), HostError>)
    requires
        sound(old(rehearsal)@, reg.caps()),
        kinds_below(ops@, reg.caps().len() as int),
    ensures
        r == match refusal(old(rehearsal)@, reg.caps(), ops@) {
            Some(e) => Err::<(), HostError>(e),
            None => Ok(()),
        },
{
    let ghost caps = reg.caps();
    let mut i: usize = 0;
    proof {
        assert(ops@.skip(0) =~= ops@);
    }
    while i < ops.len()
        invariant
            caps == reg.caps(),
            i <= ops@.len(),
            kinds_below(ops@, caps.len() as int),
            sound(rehearsal@, caps),
            run(old(rehearsal)@, caps, ops@) == run(rehearsal@, caps, ops@.skip(i as int)),
        decreases ops@.len() - i,
    {
        let ghost before = rehearsal@;
        proof {
            assert(ops@.skip(i as int)[0] == ops@[i as int]);
            assert(ops@.skip(i as int).drop_first() =~= ops@.skip(i + 1));
            let o = ops@[i as int];
        }
        match rehearsal.step(reg, &ops[i]) {
            Err(e) => {
                return Err(e);
            },
            Ok(()) => {},
        }
        i = i + 1;
    }
    proof {
        assert(ops@.skip(i as int).len() == 0);
    }
    match find_detached(&rehearsal.nodes, &rehearsal.fresh) {
        Some(x) => Err(HostError::NotAttached(x)),
        None => Ok(()),
    }
}

} // verus!
