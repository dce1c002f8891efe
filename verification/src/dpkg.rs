//! Running dpkg in a terminal of its own.
use vstd::prelude::*;

verus! {

/// What the installation says.
#[derive(Debug)]
pub enum Message {
    Yes(String),
    No(String),
}

/// Tells of the installation's progress.
#[derive(Debug)]
pub struct NalaInstallProgress {
    /// What is to be sent.
    pub sent: Vec<Message>,
}

impl NalaInstallProgress {
    /// Nothing was said yet.
    pub fn new() -> (r: Self)
        ensures
            r.sent@ == Seq::<Message>::empty(),
    {
        NalaInstallProgress { sent: Vec::new() }
    }

    /// The installation does something with a package.
    pub fn status_changed(&mut self, pkgname: &str, action: &str)
        ensures
            final(self).sent@.len() == old(self).sent@.len() + 1,
            final(self).sent@.drop_last() == old(self).sent@,
            final(self).sent@.last() is Yes,
            final(self).sent@.last()->Yes_0@ == action@ + ":"@ + pkgname@ + " from thread!"@,
    {
        let mut text = action.to_owned();
        text.append(":");
        text.append(pkgname);
        text.append(" from thread!");
        let ghost before = self.sent@;
        self.sent.push(Message::Yes(text));
        assert(self.sent@.drop_last() =~= before);
    }
}

/// What came of a read that does not wait.
#[derive(Debug, Clone, Copy, PartialEq, Eq, Structural)]
pub enum ReadOutcome {
    /// So many bytes.
    Bytes(usize),
    /// Nothing is there yet.
    WouldBlock,
    /// The system's error with this number.
    Os(i32),
    /// Another error.
    Failed,
}

/// What is done after a read.
#[derive(Debug, Clone, Copy, PartialEq, Eq, Structural)]
pub enum ReadStep {
    /// Go on; so many bytes were read.
    Continue(usize),
    /// The other side is gone: stop.
    Stop,
    /// Give up with the error.
    Fail,
}

/// What is done after a read. A terminal that was closed gives error 5.
pub fn on_read(outcome: ReadOutcome) -> (r: ReadStep)
    ensures
        r == match outcome {
            ReadOutcome::Bytes(n) => if n == 0 {
                ReadStep::Stop
            } else {
                ReadStep::Continue(n)
            },
            ReadOutcome::WouldBlock => ReadStep::Continue(0),
            ReadOutcome::Os(code) => if code == 5 {
                ReadStep::Stop
            } else {
                ReadStep::Fail
            },
            ReadOutcome::Failed => ReadStep::Fail,
        },
{
    match outcome {
        ReadOutcome::Bytes(n) => if n == 0 {
            ReadStep::Stop
        } else {
            ReadStep::Continue(n)
        },
        ReadOutcome::WouldBlock => ReadStep::Continue(0),
        ReadOutcome::Os(code) => if code == 5 {
            ReadStep::Stop
        } else {
            ReadStep::Fail
        },
        ReadOutcome::Failed => ReadStep::Fail,
    }
}

/// What the parent of the installation does next.
#[derive(Debug, Clone, Copy, PartialEq, Eq, Structural)]
pub enum InstallStep {
    /// Exit with the code of the installation.
    Exit(i32),
    /// Look at the terminal.
    ReadTerminal,
    /// Look at the status.
    ReadStatus,
    /// Print so many bytes of the status, and begin again.
    Print(usize),
    /// Begin again.
    Again,
    /// The installation is over.
    Done,
    /// Give up with the error of the last read.
    Fail,
}

/// What the parent of the installation has just learnt.
#[derive(Debug, Clone, Copy, PartialEq, Eq, Structural)]
pub enum InstallEvent {
    /// The installation still runs, or ended with a code.
    Waited(Option<i32>),
    Terminal(ReadOutcome),
    Status(ReadOutcome),
}

/// What the parent of the installation does next: it waits for the
/// installation, looks at its terminal and at its status in turn, and stops
/// when one of them is closed.
pub fn run_install(event: InstallEvent) -> (r: InstallStep)
    ensures
        r == match event {
            InstallEvent::Waited(Some(code)) => if code != 0 {
                InstallStep::Exit(code)
            } else {
                InstallStep::ReadTerminal
            },
            InstallEvent::Waited(None) => InstallStep::ReadTerminal,
            InstallEvent::Terminal(ReadOutcome::Bytes(n)) => if n == 0 {
                InstallStep::Done
            } else {
                InstallStep::ReadStatus
            },
            InstallEvent::Terminal(ReadOutcome::WouldBlock) => InstallStep::ReadStatus,
            InstallEvent::Status(ReadOutcome::Bytes(n)) => if n == 0 {
                InstallStep::Done
            } else {
                InstallStep::Print(n)
            },
            InstallEvent::Status(ReadOutcome::WouldBlock) => InstallStep::Again,
            InstallEvent::Terminal(ReadOutcome::Os(code)) | InstallEvent::Status(
                ReadOutcome::Os(code),
            ) => if code == 5 {
                InstallStep::Done
            } else {
                InstallStep::Fail
            },
            InstallEvent::Terminal(ReadOutcome::Failed) | InstallEvent::Status(
                ReadOutcome::Failed,
            ) => InstallStep::Fail,
        },
{
    match event {
        InstallEvent::Waited(Some(code)) => if code != 0 {
            InstallStep::Exit(code)
        } else {
            InstallStep::ReadTerminal
        },
        InstallEvent::Waited(None) => InstallStep::ReadTerminal,
        InstallEvent::Terminal(outcome) => match on_read(outcome) {
            ReadStep::Continue(_) => InstallStep::ReadStatus,
            ReadStep::Stop => InstallStep::Done,
            ReadStep::Fail => InstallStep::Fail,
        },
        InstallEvent::Status(outcome) => match on_read(outcome) {
            ReadStep::Continue(n) => if n == 0 {
                InstallStep::Again
            } else {
                InstallStep::Print(n)
            },
            ReadStep::Stop => InstallStep::Done,
            ReadStep::Fail => InstallStep::Fail,
        },
    }
}

/// The installation is watched until it is over. It ends in a failure exactly if
/// dpkg fails or a read does, it is over when the other side is gone, and it goes
/// on in all other cases: from waiting to the terminal, from there to the status,
/// and from there to the start.
pub proof fn law_installation_is_watched(event: InstallEvent, r: InstallStep)
    requires
        call_ensures(run_install, (event,), r),
    ensures
        r is Exit <==> event is Waited && event->Waited_0 is Some && event->Waited_0->0 != 0,
        r is Exit ==> r == InstallStep::Exit(event->Waited_0->0),
        event is Waited && !(r is Exit) ==> r is ReadTerminal,
        event matches InstallEvent::Terminal(outcome) ==> {
            &&& r is Done <==> outcome == ReadOutcome::Bytes(0) || outcome == ReadOutcome::Os(5)
            &&& r is Fail <==> outcome is Failed || (outcome is Os && outcome->Os_0 != 5)
            &&& r is Done || r is Fail || r is ReadStatus
        },
        event matches InstallEvent::Status(outcome) ==> {
            &&& r is Done <==> outcome == ReadOutcome::Bytes(0) || outcome == ReadOutcome::Os(5)
            &&& r is Fail <==> outcome is Failed || (outcome is Os && outcome->Os_0 != 5)
            &&& r is Again <==> outcome is WouldBlock
            &&& outcome is Bytes && outcome->Bytes_0 > 0 ==> r == InstallStep::Print(
                outcome->Bytes_0,
            )
        },
{
}

/// A read gives its bytes. It stops at the end and where the other side is gone,
/// waits where nothing is there yet, and fails otherwise.
pub proof fn law_reads(outcome: ReadOutcome, r: ReadStep)
    requires
        call_ensures(on_read, (outcome,), r),
    ensures
        r is Stop <==> outcome == ReadOutcome::Bytes(0) || outcome == ReadOutcome::Os(5),
        r is Fail <==> outcome is Failed || (outcome is Os && outcome->Os_0 != 5),
        outcome is Bytes && outcome->Bytes_0 > 0 ==> r == ReadStep::Continue(outcome->Bytes_0),
        outcome is WouldBlock ==> r == ReadStep::Continue(0),
{
}

/// Every change of a status is sent on, behind those before it.
pub proof fn law_changes_are_sent(
    progress: &mut NalaInstallProgress,
    pkgname: &str,
    action: &str,
    r: (),
)
    requires
        call_ensures(NalaInstallProgress::status_changed, (progress, pkgname, action), r),
    ensures
        final(progress).sent@.len() == old(progress).sent@.len() + 1,
        forall|i: int|
            0 <= i < old(progress).sent@.len() ==> #[trigger] final(progress).sent@[i] == old(
                progress).sent@[i],
        final(progress).sent@.last() is Yes,
        final(progress).sent@.last()->Yes_0@ == action@ + ":"@ + pkgname@ + " from thread!"@,
{
    assert forall|i: int|
        0 <= i < old(progress).sent@.len() implies #[trigger] final(progress).sent@[i] == old(
        progress).sent@[i] by {
        assert(final(progress).sent@.drop_last()[i] == final(progress).sent@[i]);
    }
}

} // verus!
