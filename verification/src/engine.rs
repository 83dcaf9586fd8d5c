use vstd::prelude::*;

use crate::canvas::Canvas;
use crate::canvas::CanvasView;
use crate::canvas::Region;
use crate::canvas::drain_count;
use crate::console::is_space;
use crate::console::is_space_char;
use crate::console::str_chars;
use crate::console::chars_str;
use crate::messages::ClientMessage;
use crate::messages::FrameView;
use crate::messages::RGBARegion;
use crate::messages::base64_of;
use crate::messages::rgba_of;
use crate::quad::rect_contains;
use crate::quad::rects_disjoint;

verus! {

/// The per-tick delta budget: at most this many dirty pixels ship per tick.
pub const MAX_PIXELS_PER_FRAME: usize = 3000;

/// How many seconds must pass between two snapshot saves.
pub const SAVE_INTERVAL_SECS: u64 = 5;

/// What the registry keeps of a connected client: its id and the
/// human-readable fingerprint shown by the client listing.  The transport
/// send-handle itself stays with the surrounding program, keyed by `id`.
pub struct ClientSender {
    pub id: u64,
    pub id_info: String,
}

/// One mutation event, produced by a session handler and consumed only by
/// the tick engine.  Chat coordinates travel as the raw bit patterns of the
/// client's 32-bit float values; the engine never reads them.
pub enum UpdateMsg {
    FullUpdate(ClientSender),
    Remove(u64),
    SetPixel { x: u32, y: u32, r: u8, g: u8, b: u8 },
    ChatMessage { x_bits: u32, y_bits: u32, text: String },
    Broadcast { text: String },
    SetSize(u32),
}

// ---------------------------------------------------------------------------
// Trimming chat text.
// ---------------------------------------------------------------------------
/// The sequence with its leading whitespace dropped.
pub open spec fn trim_start(s: Seq<char>) -> Seq<char>
    decreases s.len(),
{
    if s.len() > 0 && is_space(s[0]) {
        trim_start(s.drop_first())
    } else {
        s
    }
}

/// The sequence with its trailing whitespace dropped.
pub open spec fn trim_end(s: Seq<char>) -> Seq<char>
    decreases s.len(),
{
    if s.len() > 0 && is_space(s.last()) {
        trim_end(s.drop_last())
    } else {
        s
    }
}

/// The sequence with whitespace dropped at both ends.
pub open spec fn trim_spec(s: Seq<char>) -> Seq<char> {
    trim_end(trim_start(s))
}

/// Leading whitespace can be dropped all at once.
proof fn lemma_trim_start_skip(s: Seq<char>, i: int)
    requires
        0 <= i <= s.len(),
        forall|j: int| 0 <= j < i ==> is_space(#[trigger] s[j]),
    ensures
        trim_start(s) == trim_start(s.skip(i)),
    decreases i,
{
    if i == 0 {
        assert(s.skip(0) =~= s);
    } else {
        assert(s.skip(i - 1).drop_first() =~= s.skip(i));
        assert(s.skip(i - 1)[0] == s[i - 1]);
        lemma_trim_start_skip(s, i - 1);
        if i - 1 < s.len() {
            assert(trim_start(s.skip(i - 1)) == trim_start(s.skip(i)));
        }
    }
}

/// Trailing whitespace can be dropped all at once.
proof fn lemma_trim_end_take(s: Seq<char>, i: int)
    requires
        0 <= i <= s.len(),
        forall|j: int| i <= j < s.len() ==> is_space(#[trigger] s[j]),
    ensures
        trim_end(s) == trim_end(s.take(i)),
    decreases s.len() - i,
{
    if i == s.len() {
        assert(s.take(i) =~= s);
    } else {
        assert(s.take(i + 1).drop_last() =~= s.take(i));
        assert(s.take(i + 1).last() == s[i]);
        lemma_trim_end_take(s, i + 1);
    }
}

/// Drop whitespace at both ends of the string.
pub fn trim_text(s: &str) -> (r: String)
    ensures
        r@ == trim_spec(s@),
{
    let chars = str_chars(s);
    let n = chars.len();
    let mut a: usize = 0;
    while a < n && is_space_char(chars[a])
        invariant
            n == chars@.len(),
            a <= n,
            forall|j: int| 0 <= j < a ==> is_space(#[trigger] chars@[j]),
        decreases n - a,
    {
        a += 1;
    }
    let mut b: usize = n;
    while b > a && is_space_char(chars[b - 1])
        invariant
            a <= b <= n,
            n == chars@.len(),
            forall|j: int| b <= j < n ==> is_space(#[trigger] chars@[j]),
        decreases b,
    {
        b -= 1;
    }
    let mut out: Vec<char> = Vec::new();
    let mut i: usize = a;
    while i < b
        invariant
            a <= i <= b <= n,
            n == chars@.len(),
            out@ == chars@.subrange(a as int, i as int),
        decreases b - i,
    {
        let c = chars[i];
        out.push(c);
        i += 1;
        proof {
            assert(out@ =~= chars@.subrange(a as int, i as int));
        }
    }
    proof {
        lemma_trim_start_skip(s@, a as int);
        let t = s@.skip(a as int);
        if a < n {
            assert(!is_space(t[0]));
            assert(trim_start(t) == t);
        } else {
            assert(t =~= Seq::<char>::empty());
        }
        lemma_trim_end_take(t, b - a);
        if b > a {
            assert(!is_space(t.take(b - a).last()));
        }
        assert(trim_end(t.take(b - a)) == t.take(b - a));
        assert(out@ =~= t.take(b - a));
    }
    chars_str(&out)
}

// ---------------------------------------------------------------------------
// The client registry.
// ---------------------------------------------------------------------------
/// The registry after adding a client: an existing entry with the same id
/// is replaced, otherwise the client joins at the end.
pub open spec fn reg_insert(cs: Seq<ClientSender>, c: ClientSender) -> Seq<ClientSender>
    decreases cs.len(),
{
    if cs.len() == 0 {
        seq![c]
    } else if cs[0].id == c.id {
        seq![c] + cs.drop_first()
    } else {
        seq![cs[0]] + reg_insert(cs.drop_first(), c)
    }
}

/// The registry after dropping the client with the given id, if present.
pub open spec fn reg_remove(cs: Seq<ClientSender>, id: u64) -> Seq<ClientSender>
    decreases cs.len(),
{
    if cs.len() == 0 {
        Seq::empty()
    } else {
        let rest = reg_remove(cs.drop_last(), id);
        if cs.last().id == id {
            rest
        } else {
            rest.push(cs.last())
        }
    }
}

/// Inserting where the first `i` entries miss the id only touches the rest.
proof fn lemma_reg_insert_split(cs: Seq<ClientSender>, c: ClientSender, i: int)
    requires
        0 <= i <= cs.len(),
        forall|j: int| 0 <= j < i ==> (#[trigger] cs[j]).id != c.id,
    ensures
        reg_insert(cs, c) == cs.take(i) + reg_insert(cs.skip(i), c),
    decreases i,
{
    if i == 0 {
        assert(cs.skip(0) =~= cs);
        assert(cs.take(0) + reg_insert(cs, c) =~= reg_insert(cs, c));
    } else {
        lemma_reg_insert_split(cs, c, i - 1);
        let rest = cs.skip(i - 1);
        assert(rest[0] == cs[i - 1]);
        assert(rest.drop_first() =~= cs.skip(i));
        assert(reg_insert(rest, c) == seq![rest[0]] + reg_insert(cs.skip(i), c));
        assert(cs.take(i - 1) + (seq![cs[i - 1]] + reg_insert(cs.skip(i), c)) =~= cs.take(i)
            + reg_insert(cs.skip(i), c));
    }
}

// ---------------------------------------------------------------------------
// The batch fold: what one tick's batch does to the engine state and which
// frames it produces.
// ---------------------------------------------------------------------------
/// Mathematical engine state: the canvas, the registry, and whether a
/// snapshot save is pending.
#[verifier::ext_equal]
pub struct EngineView {
    pub canvas: CanvasView,
    pub clients: Seq<ClientSender>,
    pub dirty_snapshot: bool,
}

/// The full-canvas snapshot frame of a canvas.
pub open spec fn full_frame(c: CanvasView) -> FrameView {
    FrameView::FullUpdate {
        w: c.width,
        h: c.height,
        data: base64_of(rgba_of(c.region_bytes(0, 0, c.width, c.height))),
    }
}

/// The state carried across one batch: the engine state, the snapshot frame
/// cached for joiners, the per-client snapshot sends, and the queued
/// broadcast frames.
#[verifier::ext_equal]
pub struct BatchState {
    pub view: EngineView,
    pub snapshot: Option<FrameView>,
    pub joins: Seq<(u64, FrameView)>,
    pub queued: Seq<FrameView>,
}

/// The batch fold's starting state.
pub open spec fn batch_init(v: EngineView) -> BatchState {
    BatchState { view: v, snapshot: None, joins: Seq::empty(), queued: Seq::empty() }
}

/// The effect of one message, in arrival order: a join registers the client
/// and sends it the batch's shared snapshot frame, built at the first join;
/// a removal is best-effort; a pixel write marks the snapshot dirty; chat is
/// trimmed and dropped when empty; a resize that fits rebuilds the canvas
/// and queues a full-canvas frame.
pub open spec fn batch_step(st: BatchState, m: UpdateMsg) -> BatchState {
    match m {
        UpdateMsg::FullUpdate(s) => {
            let snap = if st.snapshot is Some {
                st.snapshot->Some_0
            } else {
                full_frame(st.view.canvas)
            };
            BatchState {
                view: EngineView {
                    clients: reg_insert(st.view.clients, s),
                    ..st.view
                },
                snapshot: Some(snap),
                joins: st.joins.push((s.id, snap)),
                ..st
            }
        },
        UpdateMsg::Remove(id) => BatchState {
            view: EngineView { clients: reg_remove(st.view.clients, id), ..st.view },
            ..st
        },
        UpdateMsg::SetPixel { x, y, r, g, b } => BatchState {
            view: EngineView {
                canvas: st.view.canvas.set_pixel(x, y, r, g, b),
                dirty_snapshot: true,
                ..st.view
            },
            ..st
        },
        UpdateMsg::ChatMessage { x_bits, y_bits, text } => {
            if trim_spec(text@).len() > 0 {
                BatchState {
                    queued: st.queued.push(
                        FrameView::ChatMessage {
                            x_bits,
                            y_bits,
                            text: trim_spec(text@),
                            is_admin: false,
                        },
                    ),
                    ..st
                }
            } else {
                st
            }
        },
        UpdateMsg::Broadcast { text } => BatchState {
            queued: st.queued.push(FrameView::Broadcast { text: text@ }),
            ..st
        },
        UpdateMsg::SetSize(n) => {
            if 1 <= n && n * n * 3 <= u32::MAX {
                let resized = st.view.canvas.resized(n, n);
                BatchState {
                    view: EngineView { canvas: resized, dirty_snapshot: true, ..st.view },
                    queued: st.queued.push(full_frame(resized)),
                    ..st
                }
            } else {
                st
            }
        },
    }
}

/// The batch fold over all messages, in arrival order.
pub open spec fn batch_run(st: BatchState, ms: Seq<UpdateMsg>) -> BatchState
    decreases ms.len(),
{
    if ms.len() == 0 {
        st
    } else {
        batch_step(batch_run(st, ms.drop_last()), ms.last())
    }
}

/// The rectangle a wire region covers.
pub open spec fn rgba_rect(r: RGBARegion) -> (u32, u32, u32, u32) {
    (r.x, r.y, r.w, r.h)
}

/// Some wire region of `rs` covers the point `p`.
pub open spec fn rgba_covered(p: (u32, u32), rs: Seq<RGBARegion>) -> bool {
    exists|j: int| 0 <= j < rs.len() && rect_contains(rgba_rect(#[trigger] rs[j]), p)
}

/// Wire region `r` covers at least one of the first `k` coordinates of the
/// dirty queue.
pub open spec fn rgba_hits_drained(r: RGBARegion, dirty: Seq<(u32, u32)>, k: int) -> bool {
    exists|i: int| 0 <= i < k && rect_contains(rgba_rect(r), #[trigger] dirty[i])
}

/// What one tick hands back to the transport: snapshot frames for clients
/// that joined during the batch, the delta regions of this tick (wrapped in
/// one regions frame and broadcast unless empty), and the queued chat and
/// admin frames, in order.
pub struct TickOutput {
    pub joins: Vec<(u64, ClientMessage)>,
    pub regions: Vec<RGBARegion>,
    pub broadcasts: Vec<ClientMessage>,
}

/// The frame views of a list of per-client sends.
pub open spec fn join_views(js: Seq<(u64, ClientMessage)>) -> Seq<(u64, FrameView)> {
    js.map_values(|p: (u64, ClientMessage)| (p.0, p.1@))
}

/// The frame views of a list of frames.
pub open spec fn frame_views(ms: Seq<ClientMessage>) -> Seq<FrameView> {
    ms.map_values(|m: ClientMessage| m@)
}

/// The single-writer tick engine's state: the authoritative canvas, the
/// client registry, and the pending-save flag.
pub struct Engine {
    pub canvas: Canvas,
    pub clients: Vec<ClientSender>,
    pub dirty_snapshot: bool,
}

impl View for Engine {
    type V = EngineView;

    open spec fn view(&self) -> EngineView {
        EngineView {
            canvas: self.canvas@,
            clients: self.clients@,
            dirty_snapshot: self.dirty_snapshot,
        }
    }
}

impl Engine {
    pub fn new(canvas: Canvas) -> (e: Engine)
        ensures
            e@.canvas == canvas@,
            e@.clients == Seq::<ClientSender>::empty(),
            e@.dirty_snapshot == false,
    {
        Engine { canvas, clients: Vec::new(), dirty_snapshot: false }
    }

    /// A snapshot is written once something changed and the save interval
    /// has passed.
    pub fn should_save(&self, elapsed_secs: u64) -> (r: bool)
        ensures
            r == (self@.dirty_snapshot && elapsed_secs > SAVE_INTERVAL_SECS),
    {
        self.dirty_snapshot && elapsed_secs > SAVE_INTERVAL_SECS
    }

    /// Reset the pending-save flag once a save was handed off, whatever the
    /// write's outcome.
    pub fn mark_saved(&mut self)
        ensures
            final(self)@ == (EngineView { dirty_snapshot: false, ..old(self)@ }),
    {
        self.dirty_snapshot = false;
    }

    /// Replace an existing entry with the same id, or append.
    fn register(&mut self, c: ClientSender)
        ensures
            final(self)@ == (EngineView {
                clients: reg_insert(old(self)@.clients, c),
                ..old(self)@
            }),
    {
        let ghost cs = self.clients@;
        let ghost cv = c;
        let n = self.clients.len();
        let mut i: usize = 0;
        while i < n
            invariant
                n == self.clients@.len(),
                i <= n,
                self.canvas == old(self).canvas,
                self.dirty_snapshot == old(self).dirty_snapshot,
                cs == self.clients@,
                cs == old(self).clients@,
                c == cv,
                forall|j: int| 0 <= j < i ==> (#[trigger] cs[j]).id != cv.id,
            decreases n - i,
        {
            if self.clients[i].id == c.id {
                proof {
                    lemma_reg_insert_split(cs, cv, i as int);
                    assert(cs.skip(i as int)[0] == cs[i as int]);
                    assert(cs.skip(i as int).drop_first() =~= cs.skip(i + 1));
                    assert(reg_insert(cs.skip(i as int), cv) == seq![cv] + cs.skip(i + 1));
                    assert(cs.take(i as int) + (seq![cv] + cs.skip(i + 1)) =~= cs.update(
                        i as int,
                        cv,
                    ));
                }
                self.clients[i] = c;
                proof {
                    assert(self.clients@ == cs.update(i as int, cv));
                    assert(self@ =~= (EngineView {
                        clients: reg_insert(old(self)@.clients, cv),
                        ..old(self)@
                    }));
                }
                return ;
            }
            i += 1;
        }
        proof {
            lemma_reg_insert_split(cs, cv, n as int);
            assert(cs.skip(n as int) =~= Seq::<ClientSender>::empty());
            assert(reg_insert(cs.skip(n as int), cv) =~= seq![cv]);
            assert(cs.take(n as int) + seq![cv] =~= cs.push(cv));
        }
        self.clients.push(c);
        proof {
            assert(self@ =~= (EngineView {
                clients: reg_insert(old(self)@.clients, cv),
                ..old(self)@
            }));
        }
    }

    /// Drop the entry with the given id; a miss is a no-op.
    fn unregister(&mut self, id: u64)
        ensures
            final(self)@ == (EngineView {
                clients: reg_remove(old(self)@.clients, id),
                ..old(self)@
            }),
    {
        let ghost cs = self.clients@;
        let n = self.clients.len();
        let mut out: Vec<ClientSender> = Vec::new();
        let mut i: usize = 0;
        proof {
            assert(cs.take(0) =~= Seq::<ClientSender>::empty());
        }
        while i < n
            invariant
                n == self.clients@.len(),
                i <= n,
                cs == self.clients@,
                out@ == reg_remove(cs.take(i as int), id),
            decreases n - i,
        {
            let keep = self.clients[i].id != id;
            proof {
                assert(cs.take(i + 1).drop_last() =~= cs.take(i as int));
                assert(cs.take(i + 1).last() == cs[i as int]);
            }
            if keep {
                let entry = ClientSender {
                    id: self.clients[i].id,
                    id_info: self.clients[i].id_info.clone(),
                };
                proof {
                    assert(entry == cs[i as int]);
                }
                out.push(entry);
            }
            i += 1;
        }
        proof {
            assert(cs.take(n as int) =~= cs);
        }
        self.clients = out;
    }
}


/// The frame view of the cached snapshot fields.
pub open spec fn cache_view(o: Option<(u32, u32, String)>) -> Option<FrameView> {
    match o {
        Some(t) => Some(FrameView::FullUpdate { w: t.0, h: t.1, data: t.2@ }),
        None => None,
    }
}

impl Engine {
    /// Build the full-canvas snapshot frame of the current canvas.
    fn build_full_frame(&self) -> (r: (u32, u32, String))
        requires
            self@.canvas.wf(),
        ensures
            r.0 == self@.canvas.width,
            r.1 == self@.canvas.height,
            r.2@ == base64_of(rgba_of(self@.canvas.region_bytes(0, 0, self@.canvas.width, self@.canvas.height))),
    {
        let w = self.canvas.width();
        let h = self.canvas.height();
        let reg = match self.canvas.region(0, 0, w, h) {
            Some(reg) => reg,
            None => vstd::pervasive::unreached(),
        };
        let rr = RGBARegion::from_region(reg);
        (w, h, rr.data)
    }

    /// Apply one batch of mutation events in arrival order, then drain this
    /// tick's delta regions under the per-frame pixel budget.  The caller
    /// sends each frame of `joins` to its one client, broadcasts the
    /// regions (as one frame, skipped when empty), and then broadcasts the
    /// queued frames in order.
    pub fn process_batch(&mut self, msgs: Vec<UpdateMsg>) -> (out: TickOutput)
        requires
            old(self)@.canvas.wf(),
        ensures
            final(self)@.canvas.wf(),
            ({
                let fin = batch_run(batch_init(old(self)@), msgs@);
                let k = drain_count(
                    fin.view.canvas.dirty.len() as int,
                    Some(MAX_PIXELS_PER_FRAME),
                );
                &&& final(self)@.clients == fin.view.clients
                &&& final(self)@.dirty_snapshot == fin.view.dirty_snapshot
                &&& final(self)@.canvas.width == fin.view.canvas.width
                &&& final(self)@.canvas.height == fin.view.canvas.height
                &&& final(self)@.canvas.pixels == fin.view.canvas.pixels
                &&& final(self)@.canvas.dirty == fin.view.canvas.dirty.skip(k)
                &&& join_views(out.joins@) == fin.joins
                &&& frame_views(out.broadcasts@) == fin.queued
                &&& forall|i: int| #![trigger fin.view.canvas.dirty[i]]
                    0 <= i < k ==> rgba_covered(fin.view.canvas.dirty[i], out.regions@)
                &&& forall|j: int| #![trigger out.regions@[j]]
                    0 <= j < out.regions@.len() ==> ({
                        let r = out.regions@[j];
                        &&& 1 <= r.w
                        &&& 1 <= r.h
                        &&& r.x + r.w <= fin.view.canvas.width
                        &&& r.y + r.h <= fin.view.canvas.height
                        &&& r.data@ == base64_of(
                            rgba_of(fin.view.canvas.region_bytes(r.x, r.y, r.w, r.h)),
                        )
                    })
                &&& forall|j1: int, j2: int|
                    0 <= j1 < out.regions@.len() && 0 <= j2 < out.regions@.len() && j1 != j2
                        ==> rects_disjoint(
                        rgba_rect(#[trigger] out.regions@[j1]),
                        rgba_rect(#[trigger] out.regions@[j2]),
                    )
                &&& forall|j: int| #![trigger out.regions@[j]]
                    0 <= j < out.regions@.len() ==> rgba_hits_drained(
                        out.regions@[j],
                        fin.view.canvas.dirty,
                        k,
                    )
                &&& 8 * k > fin.view.canvas.width * fin.view.canvas.height ==> out.regions@.len()
                    == 1 && out.regions@[0].x == 0 && out.regions@[0].y == 0 && out.regions@[0].w
                    == fin.view.canvas.width && out.regions@[0].h == fin.view.canvas.height
            }),
    {
        let ghost msgs0 = msgs@;
        let ghost st0 = batch_init(old(self)@);
        let mut joins: Vec<(u64, ClientMessage)> = Vec::new();
        let mut queued: Vec<ClientMessage> = Vec::new();
        let mut snapshot: Option<(u32, u32, String)> = None;
        let n = msgs.len();
        let mut i: usize = 0;
        proof {
            assert(msgs0.take(0) =~= Seq::<UpdateMsg>::empty());
            assert(join_views(joins@) =~= Seq::<(u64, FrameView)>::empty());
            assert(frame_views(queued@) =~= Seq::<FrameView>::empty());
            assert((BatchState {
                view: self@,
                snapshot: cache_view(snapshot),
                joins: join_views(joins@),
                queued: frame_views(queued@),
            }) =~~= batch_run(st0, msgs0.take(0)));
        }
        while i < n
            invariant
                n == msgs@.len(),
                msgs@ == msgs0,
                i <= n,
                st0 == batch_init(old(self)@),
                self@.canvas.wf(),
                (BatchState {
                    view: self@,
                    snapshot: cache_view(snapshot),
                    joins: join_views(joins@),
                    queued: frame_views(queued@),
                }) == batch_run(st0, msgs0.take(i as int)),
            decreases n - i,
        {
            let ghost pre = BatchState {
                view: self@,
                snapshot: cache_view(snapshot),
                joins: join_views(joins@),
                queued: frame_views(queued@),
            };
            let ghost m = msgs0[i as int];
            match &msgs[i] {
                UpdateMsg::FullUpdate(s) => {
                    let sender = ClientSender { id: s.id, id_info: s.id_info.clone() };
                    proof {
                        assert(sender == m->FullUpdate_0);
                    }
                    let frame_fields = match &snapshot {
                        Some(t) => (t.0, t.1, t.2.clone()),
                        None => self.build_full_frame(),
                    };
                    snapshot = Some((frame_fields.0, frame_fields.1, frame_fields.2.clone()));
                    let frame = ClientMessage::FullUpdate {
                        w: frame_fields.0,
                        h: frame_fields.1,
                        data: frame_fields.2,
                    };
                    let id = sender.id;
                    self.register(sender);
                    joins.push((id, frame));
                    proof {
                        assert(join_views(joins@) =~= batch_step(pre, m).joins);
                    }
                },
                UpdateMsg::Remove(id) => {
                    let id = *id;
                    self.unregister(id);
                },
                UpdateMsg::SetPixel { x, y, r, g, b } => {
                    let (x, y, r, g, b) = (*x, *y, *r, *g, *b);
                    self.canvas.set_pixel(x, y, r, g, b);
                    self.dirty_snapshot = true;
                },
                UpdateMsg::ChatMessage { x_bits, y_bits, text } => {
                    let (x_bits, y_bits) = (*x_bits, *y_bits);
                    let trimmed = trim_text(text.as_str());
                    if !trimmed.as_str().is_empty() {
                        queued.push(
                            ClientMessage::ChatMessage {
                                x_bits,
                                y_bits,
                                text: trimmed,
                                is_admin: false,
                            },
                        );
                        proof {
                            assert(frame_views(queued@) =~= batch_step(pre, m).queued);
                        }
                    }
                },
                UpdateMsg::Broadcast { text } => {
                    let text = text.clone();
                    queued.push(ClientMessage::Broadcast { text });
                    proof {
                        assert(frame_views(queued@) =~= batch_step(pre, m).queued);
                    }
                },
                UpdateMsg::SetSize(size) => {
                    let size = *size;
                    let fits = if size >= 1 {
                        match size.checked_mul(size) {
                            Some(ss) => ss.checked_mul(3).is_some(),
                            None => false,
                        }
                    } else {
                        false
                    };
                    if fits {
                        self.canvas.set_size(size, size);
                        self.dirty_snapshot = true;
                        let frame_fields = self.build_full_frame();
                        queued.push(
                            ClientMessage::FullUpdate {
                                w: frame_fields.0,
                                h: frame_fields.1,
                                data: frame_fields.2,
                            },
                        );
                        proof {
                            assert(frame_views(queued@) =~= batch_step(pre, m).queued);
                        }
                    }
                },
            }
            i += 1;
            proof {
                assert(msgs0.take(i as int).drop_last() =~= msgs0.take(i - 1));
                assert(msgs0.take(i as int).last() == m);
                let post = BatchState {
                    view: self@,
                    snapshot: cache_view(snapshot),
                    joins: join_views(joins@),
                    queued: frame_views(queued@),
                };
                assert(post =~~= batch_step(pre, m));
            }
        }
        proof {
            assert(msgs0.take(n as int) =~= msgs0);
        }
        let ghost fin = batch_run(st0, msgs0);
        let ghost pre_drain = self@.canvas;
        let dels = self.canvas.compile_deltas(Some(MAX_PIXELS_PER_FRAME));
        let mut regions: Vec<RGBARegion> = Vec::new();
        let mut t: usize = 0;
        while t < dels.len()
            invariant
                t <= dels@.len(),
                regions@.len() == t,
                forall|j: int| #![trigger regions@[j]]
                    0 <= j < t ==> regions@[j].x == dels@[j].x && regions@[j].y == dels@[j].y
                        && regions@[j].w == dels@[j].w && regions@[j].h == dels@[j].h
                        && regions@[j].data@ == base64_of(rgba_of(dels@[j].data@)),
            decreases dels@.len() - t,
        {
            let d = &dels[t];
            let copy = Region {
                x: d.x,
                y: d.y,
                w: d.w,
                h: d.h,
                data: d.data.clone(),
            };
            proof {
                assert(copy.data@ == dels@[t as int].data@);
            }
            let rr = RGBARegion::from_region(copy);
            regions.push(rr);
            t += 1;
        }
        let out = TickOutput { joins, regions, broadcasts: queued };
        proof {
            let k = drain_count(fin.view.canvas.dirty.len() as int, Some(MAX_PIXELS_PER_FRAME));
            assert(pre_drain == fin.view.canvas);
            assert forall|i2: int| #![trigger fin.view.canvas.dirty[i2]] 0 <= i2 < k implies rgba_covered(
                fin.view.canvas.dirty[i2],
                out.regions@,
            ) by {
                assert(crate::canvas::covered_by(pre_drain.dirty[i2], dels@));
                let j = choose|j: int|
                    0 <= j < dels@.len() && rect_contains(
                        crate::canvas::region_rect(#[trigger] dels@[j]),
                        pre_drain.dirty[i2],
                    );
                assert(rect_contains(rgba_rect(out.regions@[j]), fin.view.canvas.dirty[i2]));
            }
            assert forall|j: int| #![trigger out.regions@[j]] 0 <= j < out.regions@.len() implies ({
                let r = out.regions@[j];
                &&& 1 <= r.w
                &&& 1 <= r.h
                &&& r.x + r.w <= fin.view.canvas.width
                &&& r.y + r.h <= fin.view.canvas.height
                &&& r.data@ == base64_of(
                    rgba_of(fin.view.canvas.region_bytes(r.x, r.y, r.w, r.h)),
                )
            }) by {
                let r = out.regions@[j];
                assert(dels@[j].data@ == self@.canvas.region_bytes(r.x, r.y, r.w, r.h));
                assert(fin.view.canvas.region_bytes(r.x, r.y, r.w, r.h) =~= self@.canvas.region_bytes(
                    r.x,
                    r.y,
                    r.w,
                    r.h,
                ));
            }
            assert forall|j1: int, j2: int|
                0 <= j1 < out.regions@.len() && 0 <= j2 < out.regions@.len() && j1 != j2 implies rects_disjoint(
                rgba_rect(#[trigger] out.regions@[j1]),
                rgba_rect(#[trigger] out.regions@[j2]),
            ) by {
                assert(rects_disjoint(
                    crate::canvas::region_rect(dels@[j1]),
                    crate::canvas::region_rect(dels@[j2]),
                ));
            }
            assert forall|j: int| #![trigger out.regions@[j]]
                0 <= j < out.regions@.len() implies rgba_hits_drained(
                out.regions@[j],
                fin.view.canvas.dirty,
                k,
            ) by {
                assert(crate::canvas::hits_drained(dels@[j], pre_drain.dirty, k));
                let i = choose|i: int|
                    0 <= i < k && rect_contains(
                        crate::canvas::region_rect(dels@[j]),
                        #[trigger] pre_drain.dirty[i],
                    );
                assert(rect_contains(rgba_rect(out.regions@[j]), fin.view.canvas.dirty[i]));
            }
        }
        out
    }
}
} // verus!
