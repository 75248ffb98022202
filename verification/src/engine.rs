//! The control client: which of tmux's events go on to the screen, and the commands that go
//! back.
use crate::b64;
use crate::seqs;
use crate::text;
use crate::tmux;
use vstd::prelude::*;

verus! {

/// An event of the control client.
#[derive(Debug, PartialEq)]
pub enum Event {
    Output { pane_id: String, data: Vec<u8> },
    WindowAdd { window_id: String },
    WindowClose { window_id: String },
    LayoutChange { window_id: String, layout: String },
    WindowPaneChanged { window_id: String, pane_id: String },
    PaneModeChanged { pane_id: String },
    Exit { reason: Option<String> },
    /// Replies to commands, renames and session events.
    Other,
}

/// What goes on to the screen.
#[derive(Debug, Clone, PartialEq)]
pub enum Outbound {
    /// Output of a pane, in base64.
    PaneData { pane_id: String, bytes_b64: String },
    Topology(TopologyEvent),
    /// The control client has ended.
    Exit { reason: Option<String> },
}

/// A change of the windows and panes.
#[derive(Debug, Clone, PartialEq)]
pub enum TopologyEvent {
    WindowAdd { window_id: String },
    WindowClose { window_id: String },
    LayoutChange { window_id: String, layout: String },
    ActivePaneChanged { window_id: String, pane_id: String },
    PaneModeChanged { pane_id: String },
}

/// Why a command was not carried out.
#[derive(Debug, PartialEq)]
pub enum EngineError {
    Spawn(String),
    NotAttached,
    Write(String),
}

pub open spec fn error_text(e: EngineError) -> Seq<char> {
    match e {
        EngineError::Spawn(e) => "spawn control client: "@ + e@,
        EngineError::NotAttached => "no control client attached"@,
        EngineError::Write(e) => "write to control client: "@ + e@,
    }
}

impl EngineError {
    pub fn message(&self) -> (r: String)
        ensures
            r@ == error_text(*self),
    {
        match self {
            EngineError::Spawn(e) => {
                let mut m = "spawn control client: ".to_owned();
                m.append(e.as_str());
                m
            },
            EngineError::NotAttached => "no control client attached".to_owned(),
            EngineError::Write(e) => {
                let mut m = "write to control client: ".to_owned();
                m.append(e.as_str());
                m
            },
        }
    }
}

// ── Events ──────────────────────────────────────────────────────────────────────────────

/// `out` is what the event `ev` becomes on its way to the screen.
pub open spec fn is_routed(ev: Event, out: Option<Outbound>) -> bool {
    match ev {
        Event::Output { pane_id, data } => out matches Some(
            Outbound::PaneData { pane_id: p, bytes_b64 },
        ) && p@ == pane_id@ && bytes_b64@ == b64::b64_encode(data@) && b64::b64_decode(bytes_b64@)
            == Some(data@),
        Event::WindowAdd { window_id } => out == Some(
            Outbound::Topology(TopologyEvent::WindowAdd { window_id }),
        ),
        Event::WindowClose { window_id } => out == Some(
            Outbound::Topology(TopologyEvent::WindowClose { window_id }),
        ),
        Event::LayoutChange { window_id, layout } => out == Some(
            Outbound::Topology(TopologyEvent::LayoutChange { window_id, layout }),
        ),
        Event::WindowPaneChanged { window_id, pane_id } => out == Some(
            Outbound::Topology(TopologyEvent::ActivePaneChanged { window_id, pane_id }),
        ),
        Event::PaneModeChanged { pane_id } => out == Some(
            Outbound::Topology(TopologyEvent::PaneModeChanged { pane_id }),
        ),
        Event::Exit { reason } => out == Some(Outbound::Exit { reason }),
        Event::Other => out is None,
    }
}

/// The output of `ev` can be encoded.
pub open spec fn can_route(ev: Event) -> bool {
    ev matches Event::Output { data, .. } ==> b64::can_encode(data@.len())
}

/// What an event becomes on its way to the screen; `None` for what stays behind.
pub fn route(ev: Event) -> (r: Option<Outbound>)
    requires
        can_route(ev),
    ensures
        is_routed(ev, r),
{
    match ev {
        Event::Output { pane_id, data } => {
            let bytes_b64 = b64::encode(data.as_slice());
            Some(Outbound::PaneData { pane_id, bytes_b64 })
        },
        Event::WindowAdd { window_id } => Some(
            Outbound::Topology(TopologyEvent::WindowAdd { window_id }),
        ),
        Event::WindowClose { window_id } => Some(
            Outbound::Topology(TopologyEvent::WindowClose { window_id }),
        ),
        Event::LayoutChange { window_id, layout } => Some(
            Outbound::Topology(TopologyEvent::LayoutChange { window_id, layout }),
        ),
        Event::WindowPaneChanged { window_id, pane_id } => Some(
            Outbound::Topology(TopologyEvent::ActivePaneChanged { window_id, pane_id }),
        ),
        Event::PaneModeChanged { pane_id } => Some(
            Outbound::Topology(TopologyEvent::PaneModeChanged { pane_id }),
        ),
        Event::Exit { reason } => Some(Outbound::Exit { reason }),
        Event::Other => None,
    }
}

/// `out` is what the events `evs`, in their order, become.
pub open spec fn are_routed(evs: Seq<Event>, out: Seq<Outbound>) -> bool
    decreases evs.len(),
{
    if evs.len() == 0 {
        out.len() == 0
    } else if evs.last() is Other {
        are_routed(evs.drop_last(), out)
    } else {
        out.len() > 0 && is_routed(evs.last(), Some(out.last())) && are_routed(
            evs.drop_last(),
            out.drop_last(),
        )
    }
}

/// What the events that one read of the control client gave become, in their order.
pub fn pump(events: Vec<Event>) -> (r: Vec<Outbound>)
    requires
        forall|i: int| 0 <= i < events@.len() ==> can_route(#[trigger] events@[i]),
    ensures
        are_routed(events@, r@),
{
    let mut out: Vec<Outbound> = Vec::new();
    let ghost all = events@;
    assert(all.take(0) =~= Seq::empty());
    for ev in it: events
        invariant
            it.seq() == all,
            forall|i: int| 0 <= i < all.len() ==> can_route(#[trigger] all[i]),
            are_routed(all.take(it.index()), out@),
    {
        let ghost k = it.index();
        let ghost before = out@;
        proof {
            assert(all.take(k + 1).drop_last() =~= all.take(k));
            assert(all.take(k + 1).last() == ev);
            assert(can_route(all[k]));
        }
        if let Some(o) = route(ev) {
            out.push(o);
            assert(out@.drop_last() =~= before);
        }
    }
    assert(all.take(all.len() as int) =~= all);
    out
}

/// What is sent when the control client's output ends.
pub fn end_of_output() -> (r: Outbound)
    ensures
        r matches Outbound::Exit { reason: Some(s) } && s@ == "eof"@,
{
    Outbound::Exit { reason: Some("eof".to_owned()) }
}

/// Several reads add up: what two reads become, one after the other, is what their events
/// become together.
pub proof fn reads_add_up(a: Seq<Event>, x: Seq<Outbound>, b: Seq<Event>, y: Seq<Outbound>)
    requires
        are_routed(a, x),
        are_routed(b, y),
    ensures
        are_routed(a + b, x + y),
    decreases b.len(),
{
    if b.len() == 0 {
        assert(a + b =~= a);
        assert(x + y =~= x);
    } else {
        let head = b.drop_last();
        assert((a + b).drop_last() =~= a + head);
        assert((a + b).last() == b.last());
        if b.last() is Other {
            reads_add_up(a, x, head, y);
        } else {
            reads_add_up(a, x, head, y.drop_last());
            assert((x + y).drop_last() =~= x + y.drop_last());
            assert((x + y).last() == y.last());
        }
    }
}

/// `sent` is all that a control client becomes whose reads gave the events `reads` before its
/// output ended: what the events become, in their order, and one message for the end.
pub open spec fn is_whole_output(reads: Seq<Seq<Event>>, sent: Seq<Outbound>) -> bool {
    &&& sent.len() > 0
    &&& are_routed(reads.flatten_alt(), sent.drop_last())
    &&& sent.last() matches Outbound::Exit { reason: Some(s) } && s@ == "eof"@
}

proof fn all_reads_add_up(reads: Seq<Seq<Event>>, outs: Seq<Seq<Outbound>>)
    requires
        outs.len() == reads.len(),
        forall|i: int| 0 <= i < reads.len() ==> are_routed(#[trigger] reads[i], outs[i]),
    ensures
        are_routed(reads.flatten_alt(), outs.flatten_alt()),
    decreases reads.len(),
{
    if reads.len() > 0 {
        let head = reads.drop_last();
        let before = outs.drop_last();
        assert forall|i: int| 0 <= i < head.len() implies are_routed(
            #[trigger] head[i],
            before[i],
        ) by {
            assert(are_routed(reads[i], outs[i]));
        }
        all_reads_add_up(head, before);
        assert(are_routed(reads[reads.len() - 1], outs[reads.len() - 1]));
        reads_add_up(head.flatten_alt(), before.flatten_alt(), reads.last(), outs.last());
    }
}

/// However the events of a control client fall into reads, what the reads become one after
/// the other, and the end of the output behind them, is its whole output: no event is lost,
/// doubled or moved.
pub proof fn reads_make_the_whole_output(
    reads: Seq<Seq<Event>>,
    outs: Seq<Seq<Outbound>>,
    end: Outbound,
)
    requires
        outs.len() == reads.len(),
        forall|i: int| 0 <= i < reads.len() ==> are_routed(#[trigger] reads[i], outs[i]),
        end matches Outbound::Exit { reason: Some(s) } && s@ == "eof"@,
    ensures
        is_whole_output(reads, outs.flatten_alt().push(end)),
{
    all_reads_add_up(reads, outs);
    assert(outs.flatten_alt().push(end).drop_last() =~= outs.flatten_alt());
}

// ── Commands ────────────────────────────────────────────────────────────────────────────

pub open spec fn hex_digit(n: nat) -> char {
    if n < 10 {
        ('0' as u32 + n) as char
    } else {
        ('a' as u32 + (n - 10)) as char
    }
}

/// A byte as two hexadecimal digits.
pub open spec fn hex_byte(b: u8) -> Seq<char> {
    seq![hex_digit((b / 16) as nat), hex_digit((b % 16) as nat)]
}

/// Bytes as hexadecimal pairs with a space between each two.
pub open spec fn hex_text(bytes: Seq<u8>) -> Seq<char>
    decreases bytes.len(),
{
    if bytes.len() == 0 {
        Seq::empty()
    } else if bytes.len() == 1 {
        hex_byte(bytes[0])
    } else {
        hex_text(bytes.drop_last()) + seq![' '] + hex_byte(bytes.last())
    }
}

pub open spec fn send_keys_text(pane: Seq<char>, data: Seq<char>) -> Seq<char> {
    "send-keys -t "@ + pane + " -l "@ + tmux::quoted(data) + "\n"@
}

pub open spec fn send_hex_text(pane: Seq<char>, bytes: Seq<u8>) -> Seq<char> {
    "send-keys -t "@ + pane + " -H "@ + hex_text(bytes) + "\n"@
}

pub open spec fn resize_text(pane: Seq<char>, cols: u16, rows: u16) -> Seq<char> {
    "resize-pane -t "@ + pane + " -x "@ + seqs::decimal(cols as nat) + " -y "@ + seqs::decimal(
        rows as nat,
    ) + "\nrefresh-client -C "@ + seqs::decimal(cols as nat) + ","@ + seqs::decimal(rows as nat)
        + "\n"@
}

pub open spec fn client_size_text(cols: u16, rows: u16) -> Seq<char> {
    "refresh-client -C "@ + seqs::decimal(cols as nat) + ","@ + seqs::decimal(rows as nat) + "\n"@
}

pub open spec fn grid_text(cols: u16, rows: u16, layout: Seq<char>) -> Seq<char> {
    "refresh-client -C "@ + seqs::decimal(cols as nat) + ","@ + seqs::decimal(rows as nat)
        + "\nselect-layout "@ + layout + "\n"@
}

fn hex_char(n: u8) -> (r: char)
    requires
        n < 16,
    ensures
        r == hex_digit(n as nat),
{
    if n < 10 {
        (48u8 + n) as char
    } else {
        (87u8 + n) as char
    }
}

/// Bytes as hexadecimal pairs with a space between each two.
pub fn hex_pairs(bytes: &[u8]) -> (r: String)
    ensures
        r@ == hex_text(bytes@),
{
    let mut out = String::new();
    let mut i: usize = 0;
    assert(bytes@.take(0) =~= Seq::empty());
    while i < bytes.len()
        invariant
            i <= bytes@.len(),
            out@ == hex_text(bytes@.take(i as int)),
        decreases bytes@.len() - i,
    {
        let ghost before = out@;
        let b = bytes[i];
        if i > 0 {
            out.push(' ');
        }
        out.push(hex_char(b / 16));
        out.push(hex_char(b % 16));
        proof {
            assert(bytes@.take(i + 1).drop_last() =~= bytes@.take(i as int));
            assert(bytes@.take(i + 1).last() == b);
            if i == 0 {
                assert(bytes@.take(1)[0] == b);
                assert(out@ =~= hex_byte(b));
            } else {
                assert(out@ =~= before + seq![' '] + hex_byte(b));
            }
        }
        i += 1;
    }
    assert(bytes@.take(bytes@.len() as int) =~= bytes@);
    out
}

/// `s` in single quotes, for a tmux command line.
pub fn shell_single_quote(s: &str) -> (r: String)
    ensures
        r@ == tmux::quoted(s@),
{
    tmux::shq(s)
}

/// The commands for a control client, in the order in which they were given, until they are
/// taken and written to it.
pub struct ControlClient {
    pending: String,
}

impl View for ControlClient {
    type V = Seq<char>;

    closed spec fn view(&self) -> Seq<char> {
        self.pending@
    }
}

impl ControlClient {
    /// A client to which no command was given.
    pub fn new() -> (r: Self)
        ensures
            r@.len() == 0,
    {
        ControlClient { pending: String::new() }
    }

    /// The arguments with which tmux is started as a control client.
    pub fn attach_args(socket: &str, session: &str) -> (r: Vec<String>)
        ensures
            seqs::views(r@) == seq!["-L"@, socket@, "-C"@, "attach"@, "-t"@, session@],
    {
        let v: Vec<String> = vec![
            "-L".to_owned(),
            socket.to_owned(),
            "-C".to_owned(),
            "attach".to_owned(),
            "-t".to_owned(),
            session.to_owned(),
        ];
        assert(seqs::views(v@) =~= seq!["-L"@, socket@, "-C"@, "attach"@, "-t"@, session@]);
        v
    }

    /// Takes the commands, to be written.
    pub fn take(&mut self) -> (r: String)
        ensures
            r@ == old(self)@,
            final(self)@.len() == 0,
    {
        let mut out = String::new();
        core::mem::swap(&mut out, &mut self.pending);
        out
    }

    /// Types `data` into a pane, literally.
    pub fn pane_send_keys(&mut self, pane_id: &str, data: &str)
        ensures
            final(self)@ == old(self)@ + send_keys_text(pane_id@, data@),
    {
        let mut cmd = "send-keys -t ".to_owned();
        cmd.append(pane_id);
        cmd.append(" -l ");
        cmd.append(shell_single_quote(data).as_str());
        cmd.append("\n");
        self.pending.append(cmd.as_str());
    }

    /// Types raw bytes into a pane.
    pub fn pane_send_keys_hex(&mut self, pane_id: &str, bytes: &[u8])
        ensures
            final(self)@ == old(self)@ + send_hex_text(pane_id@, bytes@),
    {
        let mut cmd = "send-keys -t ".to_owned();
        cmd.append(pane_id);
        cmd.append(" -H ");
        cmd.append(hex_pairs(bytes).as_str());
        cmd.append("\n");
        self.pending.append(cmd.as_str());
    }

    /// Sizes a pane, and the client with it.
    pub fn pane_resize(&mut self, pane_id: &str, cols: u16, rows: u16)
        ensures
            final(self)@ == old(self)@ + resize_text(pane_id@, cols, rows),
    {
        let c = text::decimal(cols as u64);
        let r = text::decimal(rows as u64);
        let mut cmd = "resize-pane -t ".to_owned();
        cmd.append(pane_id);
        cmd.append(" -x ");
        cmd.append(c.as_str());
        cmd.append(" -y ");
        cmd.append(r.as_str());
        cmd.append("\nrefresh-client -C ");
        cmd.append(c.as_str());
        cmd.append(",");
        cmd.append(r.as_str());
        cmd.append("\n");
        self.pending.append(cmd.as_str());
    }

    /// Sizes the window, then lays its panes out in it.
    pub fn set_grid(&mut self, cols: u16, rows: u16, layout: &str)
        ensures
            final(self)@ == old(self)@ + grid_text(cols, rows, layout@),
    {
        let mut cmd = "refresh-client -C ".to_owned();
        cmd.append(text::decimal(cols as u64).as_str());
        cmd.append(",");
        cmd.append(text::decimal(rows as u64).as_str());
        cmd.append("\nselect-layout ");
        cmd.append(layout);
        cmd.append("\n");
        self.pending.append(cmd.as_str());
    }

    /// Sizes the window and leaves its panes as they are.
    pub fn set_client_size(&mut self, cols: u16, rows: u16)
        ensures
            final(self)@ == old(self)@ + client_size_text(cols, rows),
    {
        let mut cmd = "refresh-client -C ".to_owned();
        cmd.append(text::decimal(cols as u64).as_str());
        cmd.append(",");
        cmd.append(text::decimal(rows as u64).as_str());
        cmd.append("\n");
        self.pending.append(cmd.as_str());
    }

    /// Interrupts what runs in a pane.
    pub fn interrupt_pane(&mut self, pane_id: &str)
        ensures
            final(self)@ == old(self)@ + send_hex_text(pane_id@, seq![3u8]),
    {
        let bytes = [3u8];
        assert(bytes@ =~= seq![3u8]);
        self.pane_send_keys_hex(pane_id, &bytes);
    }

    /// Detaches the client.
    pub fn shutdown(&mut self)
        ensures
            final(self)@ == old(self)@ + "detach-client\n"@,
    {
        self.pending.append("detach-client\n");
    }
}

// ── What holds of the hexadecimal path ──────────────────────────────────────────────────

pub open spec fn hex_value(c: char) -> int {
    if '0' <= c <= '9' {
        c as u32 - '0' as u32
    } else {
        c as u32 - 'a' as u32 + 10
    }
}

/// The bytes that hexadecimal pairs with a space between each two write.
pub open spec fn unhex(s: Seq<char>) -> Seq<u8>
    decreases s.len(),
{
    if s.len() < 2 {
        Seq::empty()
    } else {
        let b = (hex_value(s[s.len() - 2]) * 16 + hex_value(s[s.len() - 1])) as u8;
        if s.len() < 5 {
            seq![b]
        } else {
            unhex(s.take(s.len() - 3)).push(b)
        }
    }
}

pub open spec fn is_hex_char(c: char) -> bool {
    '0' <= c <= '9' || 'a' <= c <= 'f' || c == ' '
}

proof fn hex_byte_back(b: u8)
    ensures
        (hex_value(hex_byte(b)[0]) * 16 + hex_value(hex_byte(b)[1])) as u8 == b,
        is_hex_char(hex_byte(b)[0]),
        is_hex_char(hex_byte(b)[1]),
{
    let hi = (b / 16) as nat;
    let lo = (b % 16) as nat;
    assert(hi < 16 && lo < 16);
    assert(hex_value(hex_digit(hi)) == hi);
    assert(hex_value(hex_digit(lo)) == lo);
}

/// Any bytes, control codes among them, survive the hexadecimal path: the text holds only
/// digits, the letters `a` to `f` and spaces, so that it stays on one command line, and it
/// writes exactly these bytes.
pub proof fn hex_path_is_exact(bytes: Seq<u8>)
    ensures
        unhex(hex_text(bytes)) == bytes,
        forall|i: int| 0 <= i < hex_text(bytes).len() ==> is_hex_char(#[trigger] hex_text(bytes)[i]),
        bytes.len() > 0 ==> hex_text(bytes).len() == 3 * bytes.len() - 1,
    decreases bytes.len(),
{
    let s = hex_text(bytes);
    if bytes.len() == 0 {
        assert(unhex(s) =~= bytes);
    } else if bytes.len() == 1 {
        hex_byte_back(bytes[0]);
        assert(unhex(s) =~= bytes);
    } else {
        let head = bytes.drop_last();
        hex_path_is_exact(head);
        hex_byte_back(bytes.last());
        let h = hex_text(head);
        assert(s.take(s.len() - 3) =~= h);
        assert(s[s.len() - 2] == hex_byte(bytes.last())[0]);
        assert(s[s.len() - 1] == hex_byte(bytes.last())[1]);
        assert(unhex(s) =~= bytes);
        assert forall|i: int| 0 <= i < s.len() implies is_hex_char(#[trigger] s[i]) by {
            if i < h.len() {
                assert(s[i] == h[i]);
            } else if i == h.len() {
                assert(s[i] == ' ');
            } else {
                assert(s[i] == hex_byte(bytes.last())[i - h.len() - 1]);
            }
        }
    }
}

// ── What holds of the commands ──────────────────────────────────────────────────────────

proof fn two_lines(a: Seq<char>, b: Seq<char>, text: Seq<char>)
    requires
        seqs::is_line(a),
        seqs::is_line(b),
        text == a + seq!['\n'] + b + seq!['\n'],
    ensures
        seqs::lines(text) == seq![a, b],
{
    let ls = seq![a, b];
    reveal_with_fuel(seqs::written, 3);
    assert(ls.drop_first() =~= seq![b]);
    assert(seq![b].drop_first() =~= Seq::empty());
    assert(seqs::written(ls) =~= text);
    seqs::lines_read_back(ls);
}

proof fn one_line(a: Seq<char>, text: Seq<char>)
    requires
        seqs::is_line(a),
        text == a + seq!['\n'],
    ensures
        seqs::lines(text) == seq![a],
{
    let ls = seq![a];
    reveal_with_fuel(seqs::written, 2);
    assert(ls.drop_first() =~= Seq::empty());
    assert(seqs::written(ls) =~= text);
    seqs::lines_read_back(ls);
}

/// A command of words is one line, and tmux reads these words of it.
proof fn words_of_command(ws: Seq<Seq<char>>)
    requires
        forall|i: int| 0 <= i < ws.len() ==> seqs::is_word(#[trigger] ws[i]),
    ensures
        seqs::is_line(seqs::join(ws, seq![' '])),
        seqs::words(seqs::join(ws, seq![' '])) == ws,
{
    seqs::words_undo_join(ws);
    let s = seqs::join(ws, seq![' ']);
    assert forall|i: int| 0 <= i < ws.len() implies !(#[trigger] ws[i]).contains('\n')
        && !ws[i].contains('\r') by {
        assert(seqs::is_word(ws[i]));
    }
    seqs::join_holds(ws, seq![' '], '\n');
    seqs::join_holds(ws, seq![' '], '\r');
    assert(!seq![' '].contains('\n') && !seq![' '].contains('\r'));
}

proof fn decimals_are_words(n: nat)
    ensures
        seqs::is_word(seqs::decimal(n)),
        !seqs::decimal(n).contains(','),
{
    seqs::decimal_reads_back(n);
    let s = seqs::decimal(n);
    assert forall|i: int| 0 <= i < s.len() implies !seqs::is_white(#[trigger] s[i]) && s[i]
        != ',' by {}
}

#[verifier::rlimit(50)]
proof fn resize_command(pane: Seq<char>, x: Seq<char>, y: Seq<char>)
    requires
        seqs::is_word(pane),
        seqs::is_word(x),
        seqs::is_word(y),
    ensures
        ({
            let line = "resize-pane -t "@ + pane + " -x "@ + x + " -y "@ + y;
            &&& seqs::is_line(line)
            &&& seqs::words(line) == seq!["resize-pane"@, "-t"@, pane, "-x"@, x, "-y"@, y]
        }),
{
    reveal_strlit("resize-pane");
    reveal_strlit("-t");
    reveal_strlit("-x");
    reveal_strlit("-y");
    reveal_strlit("resize-pane -t ");
    reveal_strlit(" -x ");
    reveal_strlit(" -y ");
    let s = seq![' '];
    let a = "resize-pane"@;
    words_of_command(seq![a, "-t"@, pane, "-x"@, x, "-y"@, y]);
    join_of_seven(a, "-t"@, pane, "-x"@, x, "-y"@, y);
    assert("resize-pane -t "@ =~= a + s + "-t"@ + s);
    assert(" -x "@ =~= s + "-x"@ + s);
    assert(" -y "@ =~= s + "-y"@ + s);
    seven_regroup(a, s, "-t"@, pane, "-x"@, x, "-y"@, y);
}

proof fn seven_regroup(
    a: Seq<char>,
    s: Seq<char>,
    b: Seq<char>,
    c: Seq<char>,
    d: Seq<char>,
    e: Seq<char>,
    f: Seq<char>,
    g: Seq<char>,
)
    ensures
        (a + s + b + s) + c + (s + d + s) + e + (s + f + s) + g == a + s + b + s + c + s + d + s + e
            + s + f + s + g,
{
    let x = a + s + b + s + c;
    assert(x + (s + d + s) =~= x + s + d + s);
    let y = x + s + d + s + e;
    assert(y + (s + f + s) =~= y + s + f + s);
}

/// Sizing a pane is two commands, one on each line: the pane gets the columns as its width
/// and the rows as its height, and so does the client.
#[verifier::rlimit(50)]
pub proof fn resizing_says_width_and_height(pane: Seq<char>, cols: u16, rows: u16)
    requires
        seqs::is_word(pane),
    ensures
        ({
            let ls = seqs::lines(resize_text(pane, cols, rows));
            let x = seqs::decimal(cols as nat);
            let y = seqs::decimal(rows as nat);
            &&& ls.len() == 2
            &&& seqs::words(ls[0]) == seq!["resize-pane"@, "-t"@, pane, "-x"@, x, "-y"@, y]
            &&& seqs::words(ls[1]) == seq!["refresh-client"@, "-C"@, x + ","@ + y]
        }),
{
    let x = seqs::decimal(cols as nat);
    let y = seqs::decimal(rows as nat);
    decimals_are_words(cols as nat);
    decimals_are_words(rows as nat);
    resize_command(pane, x, y);
    size_command(cols, rows);
    let a = "resize-pane -t "@ + pane + " -x "@ + x + " -y "@ + y;
    let b = size_line(cols, rows);
    line_break_before();
    resize_regroup(a, "refresh-client -C "@, x, y);
    two_lines(a, b, resize_text(pane, cols, rows));
}

proof fn line_break_before()
    ensures
        "\nrefresh-client -C "@ == seq!['\n'] + "refresh-client -C "@,
        "\n"@ == seq!['\n'],
{
    reveal_strlit("\nrefresh-client -C ");
    reveal_strlit("refresh-client -C ");
    reveal_strlit("\n");
    assert("\nrefresh-client -C "@ =~= seq!['\n'] + "refresh-client -C "@);
    assert("\n"@ =~= seq!['\n']);
}

proof fn resize_regroup(a: Seq<char>, p: Seq<char>, x: Seq<char>, y: Seq<char>)
    ensures
        a + (seq!['\n'] + p) + x + ","@ + y + seq!['\n'] == a + seq!['\n'] + (p + x + ","@ + y)
            + seq!['\n'],
{
    assert(a + (seq!['\n'] + p) + x + ","@ + y + seq!['\n'] =~= a + seq!['\n'] + (p + x + ","@ + y)
        + seq!['\n']);
}

spec fn size_line(cols: u16, rows: u16) -> Seq<char> {
    "refresh-client -C "@ + seqs::decimal(cols as nat) + ","@ + seqs::decimal(rows as nat)
}

#[verifier::rlimit(50)]
proof fn size_command(cols: u16, rows: u16)
    ensures
        seqs::is_line(size_line(cols, rows)),
        seqs::words(size_line(cols, rows)) == seq![
            "refresh-client"@,
            "-C"@,
            seqs::decimal(cols as nat) + ","@ + seqs::decimal(rows as nat),
        ],
{
    let x = seqs::decimal(cols as nat);
    let y = seqs::decimal(rows as nat);
    decimals_are_words(cols as nat);
    decimals_are_words(rows as nat);
    reveal_strlit("refresh-client");
    reveal_strlit("-C");
    reveal_strlit(",");
    reveal_strlit("refresh-client -C ");
    let z = x + ","@ + y;
    assert forall|i: int| 0 <= i < z.len() implies !seqs::is_white(#[trigger] z[i]) by {
        if i < x.len() {
            assert(z[i] == x[i]);
        } else if i > x.len() {
            assert(z[i] == y[i - x.len() - 1]);
        }
    }
    let ws = seq!["refresh-client"@, "-C"@, z];
    words_of_command(ws);
    reveal_with_fuel(seqs::join, 4);
    assert(ws.drop_first() =~= seq!["-C"@, z]);
    assert(ws.drop_first().drop_first() =~= seq![z]);
    assert(seqs::join(ws, seq![' ']) =~= size_line(cols, rows));
}

proof fn join_of_seven(
    a: Seq<char>,
    b: Seq<char>,
    c: Seq<char>,
    d: Seq<char>,
    e: Seq<char>,
    f: Seq<char>,
    g: Seq<char>,
)
    ensures
        seqs::join(seq![a, b, c, d, e, f, g], seq![' ']) == a + seq![' '] + b + seq![' '] + c
            + seq![' '] + d + seq![' '] + e + seq![' '] + f + seq![' '] + g,
{
    let s = seq![' '];
    assert(seq![a, b, c, d, e, f, g] =~= seq![a] + seq![b, c, d, e, f, g]);
    assert(seq![b, c, d, e, f, g] =~= seq![b] + seq![c, d, e, f, g]);
    assert(seq![c, d, e, f, g] =~= seq![c] + seq![d, e, f, g]);
    assert(seq![d, e, f, g] =~= seq![d] + seq![e, f, g]);
    assert(seq![e, f, g] =~= seq![e] + seq![f, g]);
    assert(seq![f, g] =~= seq![f] + seq![g]);
    join_first_of(a, seq![b, c, d, e, f, g], seq![a, b, c, d, e, f, g]);
    join_first_of(b, seq![c, d, e, f, g], seq![b, c, d, e, f, g]);
    join_first_of(c, seq![d, e, f, g], seq![c, d, e, f, g]);
    join_first_of(d, seq![e, f, g], seq![d, e, f, g]);
    join_first_of(e, seq![f, g], seq![e, f, g]);
    join_first_of(f, seq![g], seq![f, g]);
    assert(seqs::join(seq![g], s) == g);
    assert(seqs::join(seq![a, b, c, d, e, f, g], s) =~= a + s + b + s + c + s + d + s + e + s + f
        + s + g);
}

proof fn join_first_of(a: Seq<char>, rest: Seq<Seq<char>>, all: Seq<Seq<char>>)
    requires
        rest.len() > 0,
        all == seq![a] + rest,
    ensures
        seqs::join(all, seq![' ']) == a + seq![' '] + seqs::join(rest, seq![' ']),
{
    assert(all.drop_first() =~= rest);
    seqs::join_parts(all, seq![' '], 0);
    assert(seqs::join(all, seq![' ']) =~= a + seq![' '] + seqs::join(rest, seq![' ']));
}

/// Sizing the client says how many columns and how many rows it has; laying its panes out
/// besides says, on a line of its own behind that, how.
#[verifier::rlimit(50)]
pub proof fn client_is_sized_first(cols: u16, rows: u16, layout: Seq<char>)
    requires
        seqs::is_word(layout),
    ensures
        ({
            let size = seq![
                "refresh-client"@,
                "-C"@,
                seqs::decimal(cols as nat) + ","@ + seqs::decimal(rows as nat),
            ];
            let alone = seqs::lines(client_size_text(cols, rows));
            let both = seqs::lines(grid_text(cols, rows, layout));
            &&& alone.len() == 1
            &&& seqs::words(alone[0]) == size
            &&& both.len() == 2
            &&& seqs::words(both[0]) == size
            &&& seqs::words(both[1]) == seq!["select-layout"@, layout]
        }),
{
    size_command(cols, rows);
    let b = size_line(cols, rows);
    reveal_strlit("\n");
    reveal_strlit("\nselect-layout ");
    reveal_strlit("select-layout");
    assert(client_size_text(cols, rows) =~= b + seq!['\n']);
    one_line(b, client_size_text(cols, rows));
    let ws = seq!["select-layout"@, layout];
    words_of_command(ws);
    let c = seqs::join(ws, seq![' ']);
    assert(ws =~= seq!["select-layout"@] + seq![layout]);
    join_first_of("select-layout"@, seq![layout], ws);
    assert(seqs::join(seq![layout], seq![' ']) == layout);
    assert(grid_text(cols, rows, layout) =~= b + seq!['\n'] + c + seq!['\n']);
    two_lines(b, c, grid_text(cols, rows, layout));
}

/// What is typed reaches its pane as it is: the command is for that pane, types literally, and
/// ends in one word, which a shell reads back as what was typed; as bytes it ends in their
/// hexadecimal pairs.
pub proof fn typed_keys_reach_their_pane(
    pane: Seq<char>,
    data: Seq<char>,
    bytes: Seq<u8>,
) -> (args: (Seq<char>, Seq<char>))
    ensures
        send_keys_text(pane, data) == "send-keys -t "@ + pane + " -l "@ + args.0 + "\n"@,
        tmux::shell_word(args.0, false) == Some(data),
        send_hex_text(pane, bytes) == "send-keys -t "@ + pane + " -H "@ + args.1 + "\n"@,
        unhex(args.1) == bytes,
{
    tmux::quoting_is_exact(data);
    hex_path_is_exact(bytes);
    (tmux::quoted(data), hex_text(bytes))
}

/// The events of one read go on one by one and in their order, where none of them stays
/// behind: output with its pane and its bytes, and every change as it came.
pub proof fn events_go_on_in_order(evs: Seq<Event>, out: Seq<Outbound>, i: int)
    requires
        are_routed(evs, out),
        forall|k: int| 0 <= k < evs.len() ==> !((#[trigger] evs[k]) is Other),
        0 <= i < evs.len(),
    ensures
        out.len() == evs.len(),
        match evs[i] {
            Event::Output { pane_id, data } => out[i] matches Outbound::PaneData {
                pane_id: p,
                bytes_b64,
            } && p@ == pane_id@ && b64::b64_decode(bytes_b64@) == Some(data@),
            Event::WindowAdd { window_id } => out[i] matches Outbound::Topology(
                TopologyEvent::WindowAdd { window_id: w },
            ) && w == window_id,
            Event::WindowClose { window_id } => out[i] matches Outbound::Topology(
                TopologyEvent::WindowClose { window_id: w },
            ) && w == window_id,
            Event::LayoutChange { window_id, layout } => out[i] matches Outbound::Topology(
                TopologyEvent::LayoutChange { window_id: w, layout: l },
            ) && w == window_id && l == layout,
            Event::WindowPaneChanged { window_id, pane_id } => out[i] matches Outbound::Topology(
                TopologyEvent::ActivePaneChanged { window_id: w, pane_id: p },
            ) && w == window_id && p == pane_id,
            Event::PaneModeChanged { pane_id } => out[i] matches Outbound::Topology(
                TopologyEvent::PaneModeChanged { pane_id: p },
            ) && p == pane_id,
            Event::Exit { reason } => out[i] matches Outbound::Exit { reason: r } && r == reason,
            Event::Other => false,
        },
    decreases evs.len(),
{
    let head = evs.drop_last();
    assert(!(evs[evs.len() - 1] is Other));
    assert forall|k: int| 0 <= k < head.len() implies !((#[trigger] head[k]) is Other) by {
        assert(head[k] == evs[k]);
    }
    if i < head.len() {
        events_go_on_in_order(head, out.drop_last(), i);
        assert(head[i] == evs[i]);
        assert(out.drop_last()[i] == out[i]);
    } else {
        routed_count(head, out.drop_last());
    }
}

proof fn routed_count(evs: Seq<Event>, out: Seq<Outbound>)
    requires
        are_routed(evs, out),
        forall|k: int| 0 <= k < evs.len() ==> !((#[trigger] evs[k]) is Other),
    ensures
        out.len() == evs.len(),
    decreases evs.len(),
{
    if evs.len() > 0 {
        let head = evs.drop_last();
        assert(!(evs[evs.len() - 1] is Other));
        assert forall|k: int| 0 <= k < head.len() implies !((#[trigger] head[k]) is Other) by {
            assert(head[k] == evs[k]);
        }
        routed_count(head, out.drop_last());
    }
}

} // verus!
