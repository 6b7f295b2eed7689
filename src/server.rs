use vstd::prelude::*;
use crate::store::{copy_range, Store};

verus! {

/// Bytes of each chunk of an incremental transfer, unless configured otherwise.
pub const INCR_CHUNK_SIZE: usize = 4000;

/// The reserved "no property" value, sent back to refuse a request.
pub const NONE: u32 = 0;

/// Room kept free in a property write for the request header.
pub const HEADER_MARGIN: usize = 24;

/// The atom identifiers that the server needs, resolved by the caller.
#[derive(Clone, Copy, Debug, PartialEq, Eq)]
pub struct Atoms {
    /// The pseudo-target asking for the list of supported targets.
    pub targets: u32,
    /// The type announcing an incremental transfer.
    pub incr: u32,
    /// The type of an array of atoms.
    pub atom: u32,
}

/// A peer's request for the contents of a selection.
#[derive(Clone, Copy, Debug, PartialEq, Eq)]
pub struct Request {
    pub time: u32,
    pub requestor: u32,
    pub selection: u32,
    pub target: u32,
    pub property: u32,
}

/// What the caller is to do on its connection.
#[derive(Debug, PartialEq, Eq)]
pub enum Action {
    /// Replace a property with an array of 32-bit atoms.
    WriteAtoms { window: u32, property: u32, kind: u32, atoms: Vec<u32> },
    /// Replace a property with 8-bit data.
    WriteBytes { window: u32, property: u32, kind: u32, bytes: Vec<u8> },
    /// Subscribe to property changes on a window.
    WatchProperties { window: u32 },
    /// Send a selection-notify event to the requestor.
    Notify { time: u32, requestor: u32, selection: u32, target: u32, property: u32 },
    /// Flush the connection.
    Flush,
}

/// The mathematical form of an [`Action`].
pub enum ActionModel {
    WriteAtoms { window: u32, property: u32, kind: u32, atoms: Seq<u32> },
    WriteBytes { window: u32, property: u32, kind: u32, bytes: Seq<u8> },
    WatchProperties { window: u32 },
    Notify { time: u32, requestor: u32, selection: u32, target: u32, property: u32 },
    Flush,
}

impl View for Action {
    type V = ActionModel;

    open spec fn view(&self) -> ActionModel {
        match self {
            Action::WriteAtoms { window, property, kind, atoms } => ActionModel::WriteAtoms {
                window: *window,
                property: *property,
                kind: *kind,
                atoms: atoms@,
            },
            Action::WriteBytes { window, property, kind, bytes } => ActionModel::WriteBytes {
                window: *window,
                property: *property,
                kind: *kind,
                bytes: bytes@,
            },
            Action::WatchProperties { window } => ActionModel::WatchProperties { window: *window },
            Action::Notify { time, requestor, selection, target, property } => ActionModel::Notify {
                time: *time,
                requestor: *requestor,
                selection: *selection,
                target: *target,
                property: *property,
            },
            Action::Flush => ActionModel::Flush,
        }
    }
}

/// The models of a list of actions.
pub open spec fn models(actions: Seq<Action>) -> Seq<ActionModel> {
    actions.map_values(|a: Action| a@)
}

/// The notification answering `req` with `property`.
pub open spec fn notify_of(req: Request, property: u32) -> ActionModel {
    ActionModel::Notify {
        time: req.time,
        requestor: req.requestor,
        selection: req.selection,
        target: req.target,
        property,
    }
}

/// A payload of `len` bytes fits in one property write.
pub open spec fn fits_directly(len: nat, max_length: usize) -> bool {
    (len as int) < max_length as int - HEADER_MARGIN as int
}

/// The next chunk of `data` from `pos`: at most `size` bytes.
pub open spec fn chunk(data: Seq<u8>, pos: nat, size: nat) -> Seq<u8> {
    let rest = data.len() - pos;
    data.subrange(pos as int, pos + if size < rest { size as int } else { rest })
}

/// The transfer `t` after it delivered its next chunk of at most `size` bytes.
pub open spec fn advanced(t: TransferModel, size: nat) -> TransferModel {
    TransferModel {
        selection: t.selection,
        requestor: t.requestor,
        property: t.property,
        target: t.target,
        data: t.data,
        pos: t.pos + chunk(t.data, t.pos, size).len(),
    }
}

/// The chunks that `t` delivers, one per deletion of its property, up to
/// and including the one that comes out empty and ends it.
pub open spec fn chunks_of(t: TransferModel, size: nat) -> Seq<Seq<u8>>
    decreases t.data.len() - t.pos,
{
    if size == 0 || t.pos >= t.data.len() {
        seq![chunk(t.data, t.pos, size)]
    } else {
        seq![chunk(t.data, t.pos, size)] + chunks_of(advanced(t, size), size)
    }
}

/// Delivering a transfer chunk by chunk hands out the rest of its payload
/// from where it stands, in order and without gaps, in non-empty chunks of
/// at most `size` bytes, as many as it takes `size` to cover the rest
/// rounded up, and then one empty chunk that ends the transfer.
pub proof fn lemma_transfer_delivers_rest(t: TransferModel, size: nat)
    requires
        size > 0,
        t.pos <= t.data.len(),
    ensures
        chunks_of(t, size).flatten() == t.data.subrange(t.pos as int, t.data.len() as int),
        chunks_of(t, size).last() == Seq::<u8>::empty(),
        forall|i: int|
            0 <= i < chunks_of(t, size).len() - 1 ==> 0 < (#[trigger] chunks_of(t, size)[i]).len()
                <= size,
        chunks_of(t, size).len() == (t.data.len() - t.pos + size - 1) / (size as int) + 1,
    decreases t.data.len() - t.pos,
{
    let cs = chunks_of(t, size);
    let c = chunk(t.data, t.pos, size);
    let d = size as int;
    if t.pos >= t.data.len() {
        assert(c =~= Seq::<u8>::empty());
        assert(cs.drop_first() =~= Seq::<Seq<u8>>::empty());
        assert(cs.drop_first().flatten() =~= Seq::<u8>::empty());
        assert(cs.flatten() == c + cs.drop_first().flatten());
        assert(cs.flatten() =~= t.data.subrange(t.pos as int, t.data.len() as int));
        assert((d - 1) / d == 0) by (nonlinear_arith)
            requires
                d > 0,
        ;
    } else {
        let t2 = advanced(t, size);
        let r = t.data.len() - t.pos;
        let k = c.len() as int;
        lemma_transfer_delivers_rest(t2, size);
        let rest = chunks_of(t2, size);
        assert(cs =~= seq![c] + rest);
        assert(cs.drop_first() =~= rest);
        assert(cs.first() == c);
        assert(t2.pos == t.pos + k);
        assert(cs.flatten() == c + rest.flatten());
        assert(c + rest.flatten() =~= t.data.subrange(t.pos as int, t.data.len() as int));
        assert forall|i: int| 0 <= i < cs.len() - 1 implies 0 < (#[trigger] cs[i]).len() <= size by {
            if i > 0 {
                assert(cs[i] == rest[i - 1]);
            }
        }
        if d < r {
            assert(k == d);
            vstd::arithmetic::div_mod::lemma_div_plus_one(r - 1, d);
            assert(r - k + d - 1 == r - 1);
        } else {
            assert(k == r);
            assert((d - 1) / d == 0) by (nonlinear_arith)
                requires
                    d > 0,
            ;
            assert((r + d - 1) / d == 1) by (nonlinear_arith)
                requires
                    0 < r <= d,
            ;
        }
    }
}

/// An incremental transfer in progress.
pub struct Transfer {
    pub selection: u32,
    pub requestor: u32,
    pub property: u32,
    pub target: u32,
    /// The payload, as it stood when the transfer began.
    pub data: Vec<u8>,
    /// How many bytes of it have been delivered.
    pub pos: usize,
}

/// The mathematical form of a [`Transfer`].
pub struct TransferModel {
    pub selection: u32,
    pub requestor: u32,
    pub property: u32,
    pub target: u32,
    pub data: Seq<u8>,
    pub pos: nat,
}

impl View for Transfer {
    type V = TransferModel;

    open spec fn view(&self) -> TransferModel {
        TransferModel {
            selection: self.selection,
            requestor: self.requestor,
            property: self.property,
            target: self.target,
            data: self.data@,
            pos: self.pos as nat,
        }
    }
}

/// A transfer for `selection` is registered.
pub open spec fn has_selection(reg: Seq<TransferModel>, selection: u32) -> bool {
    exists|i: int| 0 <= i < reg.len() && (#[trigger] reg[i]).selection == selection
}

/// A transfer writing to `property` is registered.
pub open spec fn has_property(reg: Seq<TransferModel>, property: u32) -> bool {
    exists|i: int| 0 <= i < reg.len() && (#[trigger] reg[i]).property == property
}

/// At most one transfer per selection and per property, none past its end.
pub open spec fn registry_wf(reg: Seq<TransferModel>) -> bool {
    &&& forall|i: int, j: int|
        0 <= i < j < reg.len() ==> (#[trigger] reg[i]).selection != (#[trigger] reg[j]).selection
    &&& forall|i: int, j: int|
        0 <= i < j < reg.len() ==> (#[trigger] reg[i]).property != (#[trigger] reg[j]).property
    &&& forall|i: int| 0 <= i < reg.len() ==> (#[trigger] reg[i]).pos <= reg[i].data.len()
}

proof fn lemma_remove_contains<A>(s: Seq<A>, i: int)
    requires
        0 <= i < s.len(),
    ensures
        forall|x: A| #[trigger] s.remove(i).contains(x) ==> s.contains(x),
        forall|x: A| s.contains(x) && x != s[i] ==> #[trigger] s.remove(i).contains(x),
{
    assert forall|x: A| #[trigger] s.remove(i).contains(x) implies s.contains(x) by {
        let k = choose|k: int| 0 <= k < s.remove(i).len() && s.remove(i)[k] == x;
        if k < i {
            assert(s[k] == x);
        } else {
            assert(s[k + 1] == x);
        }
    }
    assert forall|x: A| s.contains(x) && x != s[i] implies #[trigger] s.remove(i).contains(x) by {
        let j = choose|j: int| 0 <= j < s.len() && s[j] == x;
        if j < i {
            assert(s.remove(i)[j] == x);
        } else {
            assert(s.remove(i)[j - 1] == x);
        }
    }
}

proof fn lemma_remove_wf(reg: Seq<TransferModel>, i: int)
    requires
        registry_wf(reg),
        0 <= i < reg.len(),
    ensures
        registry_wf(reg.remove(i)),
        !has_selection(reg.remove(i), reg[i].selection),
        !has_property(reg.remove(i), reg[i].property),
{
    let r = reg.remove(i);
    assert forall|a: int| 0 <= a < r.len() implies #[trigger] r[a] == reg[if a < i { a } else { a + 1 }] by {
    }
}

/// What a server is set up with.
#[derive(Clone, Copy, Debug, PartialEq, Eq)]
pub struct Config {
    pub atoms: Atoms,
    /// The largest property write the connection accepts, in bytes.
    pub max_length: usize,
    /// The size of each chunk of an incremental transfer.
    pub chunk_size: usize,
}

/// The server's own state: its configuration and the registry of
/// incremental transfers in progress.
pub struct Server {
    config: Config,
    transfers: Vec<Transfer>,
    closed: bool,
}

impl Server {
    /// What this server was set up with.
    pub closed spec fn config(&self) -> Config {
        self.config
    }

    /// The transfers in progress.
    pub closed spec fn registry(&self) -> Seq<TransferModel> {
        self.transfers@.map_values(|t: Transfer| t@)
    }

    /// The source of invalidation notices has been closed.
    pub closed spec fn is_closed(&self) -> bool {
        self.closed
    }

    pub open spec fn wf(&self) -> bool {
        registry_wf(self.registry())
    }

    /// A server with no transfer in progress.
    pub fn new(config: Config) -> (r: Server)
        ensures
            r.wf(),
            r.config() == config,
            r.registry() == Seq::<TransferModel>::empty(),
            !r.is_closed(),
    {
        let r = Server { config, transfers: Vec::new(), closed: false };
        assert(r.registry() =~= Seq::<TransferModel>::empty());
        r
    }

    fn find_selection(&self, selection: u32) -> (r: Option<usize>)
        ensures
            match r {
                Some(i) => i < self.registry().len() && self.registry()[i as int].selection == selection,
                None => !has_selection(self.registry(), selection),
            },
    {
        let mut i: usize = 0;
        while i < self.transfers.len()
            invariant
                i <= self.transfers@.len(),
                forall|k: int| 0 <= k < i ==> self.registry()[k].selection != selection,
            decreases self.transfers@.len() - i,
        {
            if self.transfers[i].selection == selection {
                return Some(i);
            }
            i = i + 1;
        }
        None
    }

    fn find_property(&self, property: u32) -> (r: Option<usize>)
        ensures
            match r {
                Some(i) => i < self.registry().len() && self.registry()[i as int].property == property,
                None => !has_property(self.registry(), property),
            },
    {
        let mut i: usize = 0;
        while i < self.transfers.len()
            invariant
                i <= self.transfers@.len(),
                forall|k: int| 0 <= k < i ==> self.registry()[k].property != property,
            decreases self.transfers@.len() - i,
        {
            if self.transfers[i].property == property {
                return Some(i);
            }
            i = i + 1;
        }
        None
    }

    fn remove_at(&mut self, i: usize) -> (r: Transfer)
        requires
            old(self).wf(),
            i < old(self).registry().len(),
        ensures
            final(self).wf(),
            final(self).registry() == old(self).registry().remove(i as int),
            r@ == old(self).registry()[i as int],
            final(self).config() == old(self).config(),
            final(self).is_closed() == old(self).is_closed(),
    {
        let r = self.transfers.remove(i);
        assert(self.registry() =~= old(self).registry().remove(i as int));
        proof { lemma_remove_wf(old(self).registry(), i as int); }
        r
    }

    /// What this server was set up with.
    pub fn get_config(&self) -> (r: Config)
        ensures
            r == self.config(),
    {
        self.config
    }

    /// True when a transfer for `selection` is in progress.
    pub fn is_transferring(&self, selection: u32) -> (r: bool)
        ensures
            r == has_selection(self.registry(), selection),
    {
        self.find_selection(selection).is_some()
    }

    /// Cancels the transfer for `selection`, if one is in progress: it leaves
    /// both the selection's and the property's entry of the registry.
    pub fn cancel_transfer(&mut self, selection: u32)
        requires
            old(self).wf(),
        ensures
            final(self).wf(),
            !has_selection(final(self).registry(), selection),
            forall|t: TransferModel|
                #[trigger] final(self).registry().contains(t) <==> old(self).registry().contains(t)
                    && t.selection != selection,
            forall|i: int|
                0 <= i < old(self).registry().len() && (#[trigger] old(self).registry()[i]).selection
                    == selection ==> final(self).registry() == old(self).registry().remove(i)
                    && !has_property(final(self).registry(), old(self).registry()[i].property),
            !has_selection(old(self).registry(), selection) ==> final(self).registry() == old(
                self,
            ).registry(),
            final(self).config() == old(self).config(),
            final(self).is_closed() == old(self).is_closed(),
    {
        match self.find_selection(selection) {
            Some(i) => {
                let _ = self.remove_at(i);
                proof {
                    let o = old(self).registry();
                    lemma_remove_contains(o, i as int);
                    lemma_remove_wf(o, i as int);
                    assert forall|t: TransferModel|
                        #[trigger] self.registry().contains(t) <==> o.contains(t) && t.selection != selection by {
                        if self.registry().contains(t) {
                            assert(t.selection != selection);
                        }
                    }
                }
            },
            None => {
                assert forall|t: TransferModel|
                    #[trigger] self.registry().contains(t) implies t.selection != selection by {
                }
            },
        }
    }

    fn drop_property(&mut self, property: u32)
        requires
            old(self).wf(),
        ensures
            final(self).wf(),
            !has_property(final(self).registry(), property),
            forall|t: TransferModel|
                #[trigger] final(self).registry().contains(t) <==> old(self).registry().contains(t)
                    && t.property != property,
            final(self).config() == old(self).config(),
            final(self).is_closed() == old(self).is_closed(),
    {
        match self.find_property(property) {
            Some(i) => {
                let _ = self.remove_at(i);
                proof {
                    let o = old(self).registry();
                    lemma_remove_contains(o, i as int);
                    lemma_remove_wf(o, i as int);
                    assert forall|t: TransferModel|
                        #[trigger] self.registry().contains(t) <==> o.contains(t) && t.property != property by {
                        if self.registry().contains(t) {
                            assert(t.property != property);
                        }
                    }
                }
            },
            None => {
                assert forall|t: TransferModel|
                    #[trigger] self.registry().contains(t) implies t.property != property by {
                }
            },
        }
    }
    fn start_transfer(&mut self, req: Request, data: Vec<u8>)
        requires
            old(self).wf(),
        ensures
            final(self).wf(),
            final(self).registry().len() > 0,
            final(self).registry().last() == (TransferModel {
                selection: req.selection,
                requestor: req.requestor,
                property: req.property,
                target: req.target,
                data: data@,
                pos: 0,
            }),
            forall|t: TransferModel|
                #[trigger] final(self).registry().drop_last().contains(t) <==> old(
                    self,
                ).registry().contains(t) && t.selection != req.selection && t.property
                    != req.property,
            final(self).config() == old(self).config(),
            final(self).is_closed() == old(self).is_closed(),
    {
        self.cancel_transfer(req.selection);
        let ghost mid = self.registry();
        self.drop_property(req.property);
        let ghost rest = self.registry();
        proof {
            assert forall|i: int| 0 <= i < rest.len() implies (#[trigger] rest[i]).selection
                != req.selection by {
                assert(rest.contains(rest[i]));
                assert(mid.contains(rest[i]));
            }
        }
        self.transfers.push(
            Transfer {
                selection: req.selection,
                requestor: req.requestor,
                property: req.property,
                target: req.target,
                data,
                pos: 0,
            },
        );
        proof {
            let reg = self.registry();
            assert(reg =~= rest.push(reg.last()));
            assert(reg.drop_last() =~= rest);
            assert forall|i: int, j: int| 0 <= i < j < reg.len() implies (#[trigger] reg[i]).selection
                != (#[trigger] reg[j]).selection && reg[i].property != reg[j].property by {
                if j == reg.len() - 1 {
                    assert(reg[i] == rest[i]);
                }
            }
        }
    }

    /// Answers a selection request out of `store`.
    ///
    /// A selection that `store` does not hold gets no answer. The
    /// supported-targets pseudo-target is answered with the listed targets
    /// and itself. A payload that fits in one write is written whole; a
    /// larger one starts an incremental transfer, which replaces any
    /// transfer for the same selection or property. Each of these is
    /// acknowledged with a notification naming the property. An unknown
    /// target is refused with a notification naming no property.
    pub fn on_request(&mut self, store: &Store, req: Request) -> (r: Vec<Action>)
        requires
            old(self).wf(),
            store.wf(),
        ensures
            final(self).wf(),
            final(self).config() == old(self).config(),
            final(self).is_closed() == old(self).is_closed(),
            ({
                let cfg = old(self).config();
                match store.table_of(req.selection) {
                    None => models(r@) == Seq::<ActionModel>::empty() && final(self).registry()
                        == old(self).registry(),
                    Some(table) => if req.target == cfg.atoms.targets {
                        &&& models(r@) == seq![
                            ActionModel::WriteAtoms {
                                window: req.requestor,
                                property: req.property,
                                kind: cfg.atoms.atom,
                                atoms: table.targets().push(cfg.atoms.targets),
                            },
                            notify_of(req, req.property),
                            ActionModel::Flush,
                        ]
                        &&& final(self).registry() == old(self).registry()
                    } else {
                        match table.lookup(req.target) {
                            None => models(r@) == seq![notify_of(req, NONE), ActionModel::Flush]
                                && final(self).registry() == old(self).registry(),
                            Some(data) => if fits_directly(data.len(), cfg.max_length) {
                                &&& models(r@) == seq![
                                    ActionModel::WriteBytes {
                                        window: req.requestor,
                                        property: req.property,
                                        kind: req.target,
                                        bytes: data,
                                    },
                                    notify_of(req, req.property),
                                    ActionModel::Flush,
                                ]
                                &&& final(self).registry() == old(self).registry()
                            } else {
                                &&& models(r@) == seq![
                                    ActionModel::WatchProperties { window: req.requestor },
                                    ActionModel::WriteAtoms {
                                        window: req.requestor,
                                        property: req.property,
                                        kind: cfg.atoms.incr,
                                        atoms: Seq::<u32>::empty(),
                                    },
                                    notify_of(req, req.property),
                                    ActionModel::Flush,
                                ]
                                &&& final(self).registry().len() > 0
                                &&& final(self).registry().last() == (TransferModel {
                                    selection: req.selection,
                                    requestor: req.requestor,
                                    property: req.property,
                                    target: req.target,
                                    data,
                                    pos: 0,
                                })
                                &&& forall|t: TransferModel|
                                    #[trigger] final(self).registry().drop_last().contains(t)
                                        <==> old(self).registry().contains(t) && t.selection
                                        != req.selection && t.property != req.property
                            }
                        }
                    }
                }
            }),
    {
        let table = match store.get(req.selection) {
            Some(t) => t,
            None => {
                let r: Vec<Action> = Vec::new();
                assert(models(r@) =~= Seq::<ActionModel>::empty());
                return r;
            },
        };
        let atoms = self.config.atoms;
        let mut r: Vec<Action> = Vec::new();
        if req.target == atoms.targets {
            let mut list = table.target_list();
            list.push(atoms.targets);
            r.push(
                Action::WriteAtoms {
                    window: req.requestor,
                    property: req.property,
                    kind: atoms.atom,
                    atoms: list,
                },
            );
        } else {
            match table.get(req.target) {
                Some(data) => {
                    let copy = copy_range(data, 0, data.len());
                    assert(copy@ =~= data@);
                    if self.config.max_length >= HEADER_MARGIN && data.len() < self.config.max_length
                        - HEADER_MARGIN {
                        r.push(
                            Action::WriteBytes {
                                window: req.requestor,
                                property: req.property,
                                kind: req.target,
                                bytes: copy,
                            },
                        );
                    } else {
                        self.start_transfer(req, copy);
                        r.push(Action::WatchProperties { window: req.requestor });
                        r.push(
                            Action::WriteAtoms {
                                window: req.requestor,
                                property: req.property,
                                kind: atoms.incr,
                                atoms: Vec::new(),
                            },
                        );
                    }
                },
                None => {
                    r.push(
                        Action::Notify {
                            time: req.time,
                            requestor: req.requestor,
                            selection: req.selection,
                            target: req.target,
                            property: NONE,
                        },
                    );
                    r.push(Action::Flush);
                    assert(models(r@) =~= seq![notify_of(req, NONE), ActionModel::Flush]);
                    return r;
                },
            }
        }
        r.push(
            Action::Notify {
                time: req.time,
                requestor: req.requestor,
                selection: req.selection,
                target: req.target,
                property: req.property,
            },
        );
        r.push(Action::Flush);
        proof {
            let cfg = old(self).config();
            if req.target == cfg.atoms.targets {
                assert(models(r@) =~= seq![
                    ActionModel::WriteAtoms {
                        window: req.requestor,
                        property: req.property,
                        kind: cfg.atoms.atom,
                        atoms: table.targets().push(cfg.atoms.targets),
                    },
                    notify_of(req, req.property),
                    ActionModel::Flush,
                ]);
            } else {
                let data = table.lookup(req.target).unwrap();
                if fits_directly(data.len(), cfg.max_length) {
                    assert(models(r@) =~= seq![
                        ActionModel::WriteBytes {
                            window: req.requestor,
                            property: req.property,
                            kind: req.target,
                            bytes: data,
                        },
                        notify_of(req, req.property),
                        ActionModel::Flush,
                    ]);
                } else {
                    assert(models(r@) =~= seq![
                        ActionModel::WatchProperties { window: req.requestor },
                        ActionModel::WriteAtoms {
                            window: req.requestor,
                            property: req.property,
                            kind: cfg.atoms.incr,
                            atoms: Seq::<u32>::empty(),
                        },
                        notify_of(req, req.property),
                        ActionModel::Flush,
                    ]);
                }
            }
        }
        r
    }
    /// Answers a property-change notification. A deletion of a property
    /// that a transfer writes to delivers that transfer's next chunk: at
    /// most `chunk_size` bytes from where the last one ended. The chunk that
    /// comes out empty marks the end, and the transfer leaves the registry.
    /// Anything else is ignored.
    pub fn on_property_notify(&mut self, property: u32, deleted: bool) -> (r: Vec<Action>)
        requires
            old(self).wf(),
        ensures
            final(self).wf(),
            final(self).config() == old(self).config(),
            final(self).is_closed() == old(self).is_closed(),
            !deleted || !has_property(old(self).registry(), property) ==> models(r@)
                == Seq::<ActionModel>::empty() && final(self).registry() == old(self).registry(),
            deleted ==> forall|i: int|
                0 <= i < old(self).registry().len() && (#[trigger] old(self).registry()[i]).property
                    == property ==> ({
                    let t = old(self).registry()[i];
                    let c = chunk(t.data, t.pos, old(self).config().chunk_size as nat);
                    &&& models(r@) == seq![
                        ActionModel::WriteBytes {
                            window: t.requestor,
                            property: t.property,
                            kind: t.target,
                            bytes: c,
                        },
                        ActionModel::Flush,
                    ]
                    &&& c.len() == 0 ==> final(self).registry() == old(self).registry().remove(i)
                    &&& c.len() > 0 ==> final(self).registry() == old(self).registry().update(
                        i,
                        advanced(t, old(self).config().chunk_size as nat),
                    )
                }),
    {
        let mut r: Vec<Action> = Vec::new();
        if !deleted {
            assert(models(r@) =~= Seq::<ActionModel>::empty());
            return r;
        }
        match self.find_property(property) {
            None => {
                assert(models(r@) =~= Seq::<ActionModel>::empty());
            },
            Some(i) => {
                let ghost o = self.registry();
                let t = self.remove_at(i);
                assert(self.registry().len() == self.transfers@.len());
                let rest = t.data.len() - t.pos;
                let len = if self.config.chunk_size < rest {
                    self.config.chunk_size
                } else {
                    rest
                };
                let bytes = copy_range(&t.data, t.pos, t.pos + len);
                let ghost c = bytes@;
                r.push(
                    Action::WriteBytes {
                        window: t.requestor,
                        property: t.property,
                        kind: t.target,
                        bytes,
                    },
                );
                r.push(Action::Flush);
                if len > 0 {
                    let ghost mid = self.registry();
                    self.transfers.insert(
                        i,
                        Transfer {
                            selection: t.selection,
                            requestor: t.requestor,
                            property: t.property,
                            target: t.target,
                            data: t.data,
                            pos: t.pos + len,
                        },
                    );
                    proof {
                        let n = TransferModel {
                            selection: t@.selection,
                            requestor: t@.requestor,
                            property: t@.property,
                            target: t@.target,
                            data: t@.data,
                            pos: t@.pos + c.len(),
                        };
                        assert(self.registry() =~= mid.insert(i as int, n));
                        assert(self.registry() =~= o.update(i as int, n));
                        let reg = self.registry();
                        assert forall|a: int, b: int| 0 <= a < b < reg.len() implies (#[trigger] reg[a]).selection
                            != (#[trigger] reg[b]).selection && reg[a].property != reg[b].property by {
                            assert(o[a].selection != o[b].selection);
                            assert(o[a].property != o[b].property);
                        }
                        assert forall|a: int| 0 <= a < reg.len() implies (#[trigger] reg[a]).pos <= reg[a].data.len() by {
                            assert(o[a].pos <= o[a].data.len());
                        }
                    }
                }
                proof {
                    assert forall|k: int|
                        0 <= k < o.len() && (#[trigger] o[k]).property == property implies k == i by {
                        if k != i {
                            if k < i {
                                assert(o[k].property != o[i as int].property);
                            } else {
                                assert(o[i as int].property != o[k].property);
                            }
                        }
                    }
                    assert(models(r@) =~= seq![
                        ActionModel::WriteBytes {
                            window: t@.requestor,
                            property: t@.property,
                            kind: t@.target,
                            bytes: chunk(t@.data, t@.pos, self.config.chunk_size as nat),
                        },
                        ActionModel::Flush,
                    ]);
                }
            },
        }
        r
    }

    /// Answers the loss of `selection` to another client: its transfer, if
    /// any, is cancelled and `store` forgets it.
    pub fn on_selection_clear(&mut self, store: &mut Store, selection: u32)
        requires
            old(self).wf(),
            old(store).wf(),
        ensures
            final(self).wf(),
            final(store).wf(),
            !has_selection(final(self).registry(), selection),
            forall|t: TransferModel|
                #[trigger] final(self).registry().contains(t) <==> old(self).registry().contains(t)
                    && t.selection != selection,
            final(store).table_of(selection) is None,
            forall|s: u32| s != selection ==> final(store).table_of(s) == old(store).table_of(s),
            final(self).config() == old(self).config(),
            final(self).is_closed() == old(self).is_closed(),
    {
        self.cancel_transfer(selection);
        store.remove(selection);
    }

    /// Records that no more invalidation notices will come.
    pub fn on_source_closed(&mut self)
        requires
            old(self).wf(),
        ensures
            final(self).wf(),
            final(self).is_closed(),
            final(self).registry() == old(self).registry(),
            final(self).config() == old(self).config(),
    {
        self.closed = true;
    }

    /// The server's work is done: no more invalidation notices will come and
    /// no transfer is in progress.
    pub fn finished(&self) -> (r: bool)
        ensures
            r == (self.is_closed() && self.registry().len() == 0),
    {
        self.closed && self.transfers.len() == 0
    }
}

} // verus!
