//! The keep-awake lever: the commands behind it, and when they are run.
use crate::seqs;
use crate::text;
use vstd::prelude::*;

verus! {

/// The helper that covers closing the lid.
pub const HELPER: &'static str = "/usr/local/bin/cc-cockpit-sleeplever";

/// What is shown of the lever: whether it is on, and whether closing the lid is covered.
#[derive(Clone, Copy, Debug, PartialEq, Eq, Structural)]
pub struct AwakePayload {
    pub on: bool,
    pub lid_proof: bool,
}

/// The arguments of `caffeinate`: no idle sleep, no sleep on mains power, until the process
/// `pid` ends.
pub fn caffeinate_args(pid: u32) -> (r: Vec<String>)
    ensures
        seqs::views(r@) == seq!["-is"@, "-w"@, seqs::decimal(pid as nat)],
{
    let v: Vec<String> = vec!["-is".to_owned(), "-w".to_owned(), text::decimal(pid as u64)];
    assert(seqs::views(v@) =~= seq!["-is"@, "-w"@, seqs::decimal(pid as nat)]);
    v
}

/// The arguments with which `sudo` runs the helper: never asking for a password, and with
/// the process to watch, where there is one.
pub fn helper_args(action: &str, pid: Option<u32>) -> (r: Vec<String>)
    ensures
        seqs::views(r@) == (match pid {
            Some(p) => seq![
                "-n"@,
                "/usr/local/bin/cc-cockpit-sleeplever"@,
                action@,
                seqs::decimal(p as nat),
            ],
            None => seq!["-n"@, "/usr/local/bin/cc-cockpit-sleeplever"@, action@],
        }),
{
    let mut v: Vec<String> = vec!["-n".to_owned(), HELPER.to_owned(), action.to_owned()];
    assert(seqs::views(v@) =~= seq![
        "-n"@,
        "/usr/local/bin/cc-cockpit-sleeplever"@,
        action@,
    ]);
    if let Some(p) = pid {
        let ghost before = v@;
        let d = text::decimal(p as u64);
        v.push(d);
        assert(seqs::views(v@) =~= seqs::views(before).push(d@));
        assert(seqs::views(v@) =~= seq![
            "-n"@,
            "/usr/local/bin/cc-cockpit-sleeplever"@,
            action@,
            seqs::decimal(p as nat),
        ]);
    }
    v
}

/// What has to be done when the lever is moved.
#[derive(Clone, Copy, Debug, PartialEq, Eq, Structural)]
pub enum LeverAction {
    /// Nothing.
    Rest,
    /// Start `caffeinate`, then turn the helper on, and report both.
    Start,
    /// End `caffeinate` where it runs, and turn the helper off where it is on.
    Stop { end_child: bool, helper_off: bool },
}

/// The lever. The helper is on only while `caffeinate` runs.
pub struct Lever {
    running: bool,
    lid_proof: bool,
}

impl Lever {
    pub closed spec fn on(self) -> bool {
        self.running
    }

    pub closed spec fn lid_proof(self) -> bool {
        self.lid_proof
    }

    /// A lever that reads off has not left the helper on.
    pub open spec fn wf(self) -> bool {
        self.lid_proof() ==> self.on()
    }

    /// The lever, off.
    pub fn new() -> (r: Self)
        ensures
            r.wf(),
            !r.on(),
            !r.lid_proof(),
    {
        Lever { running: false, lid_proof: false }
    }

    pub fn payload(&self) -> (r: AwakePayload)
        ensures
            r == (AwakePayload { on: self.on(), lid_proof: self.lid_proof() }),
    {
        AwakePayload { on: self.running, lid_proof: self.lid_proof }
    }

    /// Takes note of whether `caffeinate` has ended by itself. Returns whether the helper has
    /// to be turned off.
    pub fn reap_dead(&mut self, exited: bool) -> (r: bool)
        requires
            old(self).wf(),
        ensures
            final(self).wf(),
            final(self).on() == (old(self).on() && !exited),
            final(self).lid_proof() == (old(self).lid_proof() && !(old(self).on() && exited)),
            r == (old(self).on() && exited && old(self).lid_proof()),
    {
        if self.running && exited {
            let off = self.lid_proof;
            *self = Lever { running: false, lid_proof: false };
            off
        } else {
            false
        }
    }

    /// Moves the lever. Turning it on while it is on, or off while it is off, does nothing.
    /// Turning it on takes effect with [`Lever::started`].
    pub fn awake_set(&mut self, on: bool) -> (r: LeverAction)
        requires
            old(self).wf(),
        ensures
            final(self).wf(),
            on ==> *final(self) == *old(self),
            !on ==> !final(self).on() && !final(self).lid_proof(),
            r == (if on {
                if old(self).on() {
                    LeverAction::Rest
                } else {
                    LeverAction::Start
                }
            } else if old(self).on() || old(self).lid_proof() {
                LeverAction::Stop { end_child: old(self).on(), helper_off: old(self).lid_proof() }
            } else {
                LeverAction::Rest
            }),
    {
        if on {
            if self.running {
                return LeverAction::Rest;
            }
            return LeverAction::Start;
        }
        let action = if self.running || self.lid_proof {
            LeverAction::Stop { end_child: self.running, helper_off: self.lid_proof }
        } else {
            LeverAction::Rest
        };
        *self = Lever { running: false, lid_proof: false };
        action
    }

    /// Takes note that `caffeinate` has been started, and of whether the helper accepted.
    pub fn started(&mut self, helper_accepted: bool)
        ensures
            final(self).wf(),
            final(self).on(),
            final(self).lid_proof() == helper_accepted,
    {
        *self = Lever { running: true, lid_proof: helper_accepted };
    }
}

/// The machine is kept awake as long as the watched process runs, and the helper is run
/// without asking for a password, to do what was asked for, for that process.
pub proof fn commands_watch_the_process(
    pid: u32,
    action: &str,
    caffeinate: Vec<String>,
    helper: Vec<String>,
)
    requires
        call_ensures(caffeinate_args, (pid,), caffeinate),
        call_ensures(helper_args, (action, Some(pid)), helper),
    ensures
        seqs::views(caffeinate@).len() == 3,
        seqs::views(caffeinate@)[0] == "-is"@,
        seqs::views(caffeinate@)[1] == "-w"@,
        seqs::digits_value(seqs::views(caffeinate@)[2]) == pid,
        seqs::views(helper@).len() == 4,
        seqs::views(helper@)[0] == "-n"@,
        seqs::views(helper@)[1] == "/usr/local/bin/cc-cockpit-sleeplever"@,
        seqs::views(helper@)[2] == action@,
        seqs::digits_value(seqs::views(helper@)[3]) == pid,
{
    seqs::decimal_reads_back(pid as nat);
}

} // verus!
