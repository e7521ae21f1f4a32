//! The import screen's text rules: how a data path is shown in the room its
//! column has, and what a finished import job amounts to.

use vstd::prelude::*;

use crate::text::{chars_of, copy_range, extend, same_text, text_string};

verus! {

/// The characters a shown data path may take.
pub const PATH_BUDGET: usize = 22;

/// What stands in for the cut-out part of a path.
pub const ELLIPSIS: char = '\u{2026}';

/// A piece of text cut to `room` characters: left whole where it fits, a lone
/// ellipsis where there is no room for both ends, and otherwise its first and
/// last characters (one more at the end on an odd split) around an ellipsis.
pub open spec fn shortened(text: Seq<char>, room: int) -> Seq<char> {
    if text.len() <= room {
        text
    } else if room < 4 {
        seq![ELLIPSIS]
    } else {
        let keep = room - 1;
        let head = keep / 2;
        let tail = keep - head;
        text.take(head) + seq![ELLIPSIS] + text.skip(text.len() - tail)
    }
}

/// Cuts a piece of text to `room` characters; see [`shortened`]. What comes
/// back never takes more room than it was given, but for the one ellipsis.
pub fn shorten(text: &str, room: usize) -> (shown: String)
    ensures
        shown@ == shortened(text@, room as int),
        shown@.len() <= if room >= 1 { room as int } else { 1 },
{
    let glyphs = chars_of(text);
    let length = glyphs.len();
    if length <= room {
        return text_string(glyphs.as_slice());
    }
    if room < 4 {
        return text_string(&[ELLIPSIS]);
    }
    let keep = room - 1;
    let head = keep / 2;
    let tail = keep - head;
    let mut shown = copy_range(glyphs.as_slice(), 0, head);
    shown.push(ELLIPSIS);
    let end = copy_range(glyphs.as_slice(), length - tail, length);
    extend(&mut shown, end.as_slice());
    assert(glyphs@.subrange(length - tail, length as int) == glyphs@.skip(length - tail));
    text_string(shown.as_slice())
}

/// What stands in for the user's name in a shown path.
pub open spec fn mask() -> Seq<char> {
    seq!['*', '*', '*']
}

/// A text with every occurrence of `name` replaced by the mask, as
/// `str::replace` replaces them: from the left, each match taken whole and
/// scanning on after it.
pub open spec fn masked_text(text: Seq<char>, name: Seq<char>) -> Seq<char>
    decreases text.len(),
{
    if name.len() == 0 || text.len() == 0 {
        text
    } else if name.len() <= text.len() && text.take(name.len() as int) == name {
        mask() + masked_text(text.skip(name.len() as int), name)
    } else {
        seq![text[0]] + masked_text(text.drop_first(), name)
    }
}

/// Whether `text` holds `piece` starting at `at`.
pub open spec fn found_at(text: Seq<char>, piece: Seq<char>, at: int) -> bool {
    0 <= at && at + piece.len() <= text.len() && text.subrange(at, at + piece.len()) == piece
}

/// Where a window of masked text holds no mask character, it is the text it
/// was masked from.
proof fn lemma_masked_prefix(text: Seq<char>, name: Seq<char>, length: int)
    requires
        name.len() > 0,
        0 <= length <= masked_text(text, name).len(),
        forall|k: int| 0 <= k < length ==> masked_text(text, name)[k] != '*',
    ensures
        length <= text.len(),
        masked_text(text, name).take(length) == text.take(length),
    decreases text.len(),
{
    let out = masked_text(text, name);
    if length == 0 {
        assert(out.take(0) =~= text.take(0));
    } else if name.len() <= text.len() && text.take(name.len() as int) == name {
        assert(out[0] == '*');
    } else {
        let rest = masked_text(text.drop_first(), name);
        assert(out == seq![text[0]] + rest);
        assert forall|k: int| 0 <= k < length - 1 implies rest[k] != '*' by {
            assert(rest[k] == out[k + 1]);
        }
        lemma_masked_prefix(text.drop_first(), name, length - 1);
        assert(out.take(length) =~= seq![text[0]] + rest.take(length - 1));
        assert(text.take(length) =~= seq![text[0]] + text.drop_first().take(length - 1));
    }
}

/// Masking leaves no occurrence of a name that holds no mask character.
pub proof fn lemma_masked_hides_name(text: Seq<char>, name: Seq<char>)
    requires
        name.len() > 0,
        forall|k: int| 0 <= k < name.len() ==> name[k] != '*',
    ensures
        forall|at: int| !found_at(masked_text(text, name), name, at),
    decreases text.len(),
{
    let out = masked_text(text, name);
    if text.len() == 0 {
    } else if name.len() <= text.len() && text.take(name.len() as int) == name {
        let rest = masked_text(text.skip(name.len() as int), name);
        lemma_masked_hides_name(text.skip(name.len() as int), name);
        assert(out == mask() + rest);
        assert forall|at: int| !found_at(out, name, at) by {
            if found_at(out, name, at) {
                if at < 3 {
                    assert(out.subrange(at, at + name.len())[0] == out[at]);
                    assert(out[at] == '*');
                } else {
                    assert(out.subrange(at, at + name.len()) =~= rest.subrange(at - 3, at - 3 + name.len()));
                    assert(found_at(rest, name, at - 3));
                }
            }
        }
    } else {
        let tail_text = text.drop_first();
        let rest = masked_text(tail_text, name);
        lemma_masked_hides_name(tail_text, name);
        assert(out == seq![text[0]] + rest);
        assert forall|at: int| !found_at(out, name, at) by {
            if found_at(out, name, at) {
                if at == 0 {
                    let window = out.subrange(0, name.len() as int);
                    assert forall|k: int| 0 <= k < name.len() - 1 implies rest[k] != '*' by {
                        assert(rest[k] == out[k + 1]);
                        assert(window[k + 1] == name[k + 1]);
                    }
                    lemma_masked_prefix(tail_text, name, name.len() - 1);
                    assert(text.take(name.len() as int) =~= seq![text[0]] + tail_text.take(name.len() - 1));
                    assert(window =~= seq![text[0]] + rest.take(name.len() - 1));
                    assert(text.take(name.len() as int) =~= name);
                } else {
                    assert(out.subrange(at, at + name.len()) =~= rest.subrange(at - 1, at - 1 + name.len()));
                    assert(found_at(rest, name, at - 1));
                }
            }
        }
    }
}

/// Masks every occurrence of the user's name in a text; see [`masked_text`].
/// Where the name holds no mask character, what comes back holds no
/// occurrence of it.
pub fn masked(text: &str, name: &str) -> (shown: String)
    ensures
        shown@ == masked_text(text@, name@),
        name@.len() > 0 && (forall|k: int| 0 <= k < name@.len() ==> name@[k] != '*') ==> forall|at: int|
            !found_at(shown@, name@, at),
{
    let glyphs = chars_of(text);
    let wanted = chars_of(name);
    let mut out: Vec<char> = Vec::new();
    if wanted.len() > 0 {
        let mut at: usize = 0;
        assert(out@ + masked_text(glyphs@.skip(0), wanted@) =~= masked_text(glyphs@, wanted@)) by {
            assert(glyphs@.skip(0) =~= glyphs@);
        }
        while at < glyphs.len()
            invariant
                wanted@.len() > 0,
                at <= glyphs@.len(),
                out@ + masked_text(glyphs@.skip(at as int), wanted@) == masked_text(glyphs@, wanted@),
            decreases glyphs@.len() - at,
        {
            let ghost rest = glyphs@.skip(at as int);
            let count = glyphs.len();
            let mut matched = wanted.len() <= glyphs.len() - at;
            let mut k: usize = 0;
            while matched && k < wanted.len()
                invariant
                    wanted@.len() <= glyphs@.len() - at ==> (matched <==> forall|j: int| 0 <= j < k ==> glyphs@[at + j] == wanted@[j]),
                    !(wanted@.len() <= glyphs@.len() - at) ==> !matched,
                    k <= wanted@.len(),
                    at < glyphs@.len(),
                    count == glyphs@.len(),
                    matched ==> at + wanted@.len() <= glyphs@.len(),
                decreases wanted@.len() - k,
            {
                let spot: usize = at + k;
                if glyphs[spot] != wanted[k] {
                    matched = false;
                }
                k += 1;
            }
            proof {
                if matched {
                    assert(rest.take(wanted@.len() as int) =~= wanted@);
                } else if wanted@.len() <= rest.len() {
                    let j = choose|j: int| 0 <= j < k && glyphs@[at + j] != wanted@[j];
                    assert(rest.take(wanted@.len() as int)[j] != wanted@[j]);
                }
            }
            if matched {
                out.push('*');
                out.push('*');
                out.push('*');
                proof {
                    assert(rest.skip(wanted@.len() as int) =~= glyphs@.skip(at + wanted@.len()));
                    assert(out@ + masked_text(glyphs@.skip(at + wanted@.len()), wanted@) =~= out@.take(out@.len() - 3) + (mask() + masked_text(rest.skip(wanted@.len() as int), wanted@)));
                }
                at = at + wanted.len();
            } else {
                out.push(glyphs[at]);
                proof {
                    assert(rest.drop_first() =~= glyphs@.skip(at + 1));
                    assert(out@ + masked_text(glyphs@.skip(at + 1), wanted@) =~= out@.drop_last() + (seq![rest[0]] + masked_text(rest.drop_first(), wanted@)));
                }
                at = at + 1;
            }
        }
        assert(glyphs@.skip(at as int) =~= Seq::<char>::empty());
        assert(out@ + masked_text(glyphs@.skip(at as int), wanted@) =~= out@);
    } else {
        out = glyphs;
    }
    proof {
        if wanted@.len() > 0 && (forall|k: int| 0 <= k < wanted@.len() ==> wanted@[k] != '*') {
            lemma_masked_hides_name(text@, name@);
        }
    }
    text_string(out.as_slice())
}

/// Whether a path names no source: it is empty, or the placeholder the
/// screen shows before one is chosen.
pub open spec fn unset(path: Seq<char>) -> bool {
    path.len() == 0 || path == "No source selected"@
}

/// How a data path is shown: nothing for an unset one; otherwise its last two
/// named components joined by the separator, behind an ellipsis and a
/// separator where more came before them, cut to the budget (or the whole
/// cleaned text, cut, where it names no component).
pub open spec fn censored_text(path: Seq<char>, clean: Seq<char>, parts: Seq<String>, separator: char) -> Seq<char> {
    if unset(path) {
        Seq::empty()
    } else if parts.len() == 0 {
        shortened(clean, PATH_BUDGET as int)
    } else {
        let joined = if parts.len() == 1 {
            parts[0]@
        } else {
            parts[parts.len() - 2]@ + seq![separator] + parts.last()@
        };
        if parts.len() > 2 {
            seq![ELLIPSIS, separator] + shortened(joined, PATH_BUDGET - 2)
        } else {
            shortened(joined, PATH_BUDGET as int)
        }
    }
}

/// Shows a data path; see [`censored_text`]. `clean` is the path with the
/// user's name masked and `parts` its named components, which the caller
/// reads off the path. What comes back fits the budget.
pub fn censored(path: &str, clean: &str, parts: &[String], separator: char) -> (shown: String)
    ensures
        shown@ == censored_text(path@, clean@, parts@, separator),
        shown@.len() <= PATH_BUDGET,
{
    let held = chars_of(path);
    let placeholder = chars_of("No source selected");
    if held.len() == 0 || same_text(held.as_slice(), placeholder.as_slice()) {
        return String::new();
    }
    if parts.len() == 0 {
        return shorten(clean, PATH_BUDGET);
    }
    let count = parts.len();
    let mut joined: Vec<char> = Vec::new();
    if count >= 2 {
        joined = chars_of(parts[count - 2].as_str());
        joined.push(separator);
    }
    extend(&mut joined, chars_of(parts[count - 1].as_str()).as_slice());
    let joined = text_string(joined.as_slice());
    if count > 2 {
        let cut = shorten(joined.as_str(), PATH_BUDGET - 2);
        let mut shown: Vec<char> = Vec::new();
        shown.push(ELLIPSIS);
        shown.push(separator);
        extend(&mut shown, chars_of(cut.as_str()).as_slice());
        text_string(shown.as_slice())
    } else {
        shorten(joined.as_str(), PATH_BUDGET)
    }
}

/// How an import job ended.
#[derive(Clone, Debug, PartialEq, Eq)]
pub enum JobOutcome {
    /// It ran to the end.
    Completed,
    /// It stopped on the error given.
    Failed(String),
    /// It was called off.
    Aborted,
}

/// What a job amounts to: called off where an abort was asked for, whatever
/// it returned; otherwise failed with its error, or completed.
pub fn job_outcome(result: Result<(), String>, aborted: bool) -> (outcome: JobOutcome)
    ensures
        aborted ==> outcome == JobOutcome::Aborted,
        !aborted ==> match result {
            Ok(()) => outcome == JobOutcome::Completed,
            Err(error) => outcome == JobOutcome::Failed(error),
        },
{
    if aborted {
        return JobOutcome::Aborted;
    }
    match result {
        Ok(()) => JobOutcome::Completed,
        Err(error) => JobOutcome::Failed(error),
    }
}

/// The notice shown for a while after a job ends without an error.
#[derive(Clone, Copy, PartialEq, Eq, Debug, Structural)]
pub enum Banner {
    /// The job ran to the end.
    Completed,
    /// The job was called off.
    Aborted,
}

/// What a running job reports.
#[derive(Clone, Debug, PartialEq, Eq)]
pub enum JobEvent {
    /// A line for the console.
    Log(String),
    /// A step forward, which the progress bar reads from its own counter.
    Progress,
    /// The end of the job.
    Finished(JobOutcome),
}

/// What the screen does after taking in an event: scroll the console to its
/// end, put up a banner (and time it out), and, once the job is over, release
/// its abort flag, fill the progress bar and let go of its handle.
#[derive(Clone, Copy, PartialEq, Eq, Debug, Structural)]
pub struct Reaction {
    /// Whether the console scrolls to its last line.
    pub snap: bool,
    /// The banner to put up, if any.
    pub banner: Option<Banner>,
    /// Whether the job is over.
    pub settled: bool,
}

/// The state of the import screen's job: whether one runs, whether it was
/// asked to stop, what it has logged, and the banner on show.
#[derive(Clone, Debug)]
pub struct JobSlot {
    /// Whether a job is running.
    pub running: bool,
    /// Whether it was asked to stop.
    pub aborting: bool,
    /// Its console, one line per entry.
    pub log: String,
    /// The banner on show.
    pub banner: Option<Banner>,
}

/// A log with one more line: the line alone in an empty log, and after a
/// line break otherwise.
pub open spec fn appended(log: Seq<char>, line: Seq<char>) -> Seq<char> {
    if log.len() == 0 {
        line
    } else {
        log + seq!['\n'] + line
    }
}

fn append(log: &String, line: &[char]) -> (longer: String)
    ensures
        longer@ == appended(log@, line@),
{
    let mut glyphs = chars_of(log.as_str());
    if glyphs.len() > 0 {
        glyphs.push('\n');
    }
    extend(&mut glyphs, line);
    text_string(glyphs.as_slice())
}

impl JobSlot {
    /// A slot with no job.
    pub fn new() -> (slot: JobSlot)
        ensures
            !slot.running,
            !slot.aborting,
            slot.log@.len() == 0,
            slot.banner is None,
    {
        JobSlot { running: false, aborting: false, log: String::new(), banner: None }
    }

    /// Starts a job: running, not stopping, with an empty console and no
    /// banner.
    pub fn begin(&mut self)
        ensures
            final(self).running,
            !final(self).aborting,
            final(self).log@.len() == 0,
            final(self).banner is None,
    {
        self.running = true;
        self.aborting = false;
        self.log = String::new();
        self.banner = None;
    }

    /// Asks the job to stop; nothing else changes.
    pub fn request_abort(&mut self)
        ensures
            final(self).aborting,
            final(self).running == old(self).running,
            final(self).log@ == old(self).log@,
            final(self).banner == old(self).banner,
    {
        self.aborting = true;
    }

    /// Puts up a banner.
    pub fn show_banner(&mut self, banner: Banner)
        ensures
            final(self).banner == Some(banner),
            final(self).running == old(self).running,
            final(self).aborting == old(self).aborting,
            final(self).log@ == old(self).log@,
    {
        self.banner = Some(banner);
    }

    /// Takes in what the job reported. A logged line goes to the console,
    /// which scrolls to it; progress changes nothing here; the end of the job
    /// stops it, and either puts up its banner or, for a failure, logs the
    /// error and scrolls to it.
    pub fn apply(&mut self, event: JobEvent) -> (reaction: Reaction)
        ensures
            match event {
                JobEvent::Log(line) => {
                    &&& final(self).log@ == appended(old(self).log@, line@)
                    &&& final(self).running == old(self).running
                    &&& final(self).aborting == old(self).aborting
                    &&& final(self).banner == old(self).banner
                    &&& reaction == (Reaction { snap: true, banner: None, settled: false })
                },
                JobEvent::Progress => {
                    &&& final(self).log@ == old(self).log@
                    &&& final(self).running == old(self).running
                    &&& final(self).aborting == old(self).aborting
                    &&& final(self).banner == old(self).banner
                    &&& reaction == (Reaction { snap: false, banner: None, settled: false })
                },
                JobEvent::Finished(outcome) => {
                    &&& !final(self).running
                    &&& !final(self).aborting
                    &&& reaction.settled
                    &&& match outcome {
                        JobOutcome::Completed => {
                            &&& final(self).banner == Some(Banner::Completed)
                            &&& final(self).log@ == old(self).log@
                            &&& reaction.banner == Some(Banner::Completed) && !reaction.snap
                        },
                        JobOutcome::Aborted => {
                            &&& final(self).banner == Some(Banner::Aborted)
                            &&& final(self).log@ == old(self).log@
                            &&& reaction.banner == Some(Banner::Aborted) && !reaction.snap
                        },
                        JobOutcome::Failed(message) => {
                            &&& final(self).banner == old(self).banner
                            &&& final(self).log@ == appended(old(self).log@, "Error: "@ + message@)
                            &&& reaction.banner is None && reaction.snap
                        },
                    }
                },
            },
    {
        match event {
            JobEvent::Log(line) => {
                self.log = append(&self.log, chars_of(line.as_str()).as_slice());
                Reaction { snap: true, banner: None, settled: false }
            },
            JobEvent::Progress => Reaction { snap: false, banner: None, settled: false },
            JobEvent::Finished(outcome) => {
                self.running = false;
                self.aborting = false;
                match outcome {
                    JobOutcome::Completed => {
                        self.show_banner(Banner::Completed);
                        Reaction { snap: false, banner: Some(Banner::Completed), settled: true }
                    },
                    JobOutcome::Aborted => {
                        self.show_banner(Banner::Aborted);
                        Reaction { snap: false, banner: Some(Banner::Aborted), settled: true }
                    },
                    JobOutcome::Failed(message) => {
                        let mut line = chars_of("Error: ");
                        extend(&mut line, chars_of(message.as_str()).as_slice());
                        self.log = append(&self.log, line.as_slice());
                        Reaction { snap: true, banner: None, settled: true }
                    },
                }
            },
        }
    }
}


/// Whether an import has finished well since the screen last asked.
#[derive(Clone, Copy, Debug)]
pub struct SuccessFlag {
    pub pending: bool,
}

impl SuccessFlag {
    /// A flag not raised.
    pub fn new() -> (flag: SuccessFlag)
        ensures
            !flag.pending,
    {
        SuccessFlag { pending: false }
    }

    /// Takes in a job event: a job that finished by running to the end raises
    /// the flag; no event lowers it, so a later job that fails or is called
    /// off does not hide an earlier success.
    pub fn record(&mut self, event: &JobEvent)
        ensures
            final(self).pending == (old(self).pending || *event == JobEvent::Finished(JobOutcome::Completed)),
    {
        match event {
            JobEvent::Finished(JobOutcome::Completed) => {
                self.pending = true;
            },
            _ => {},
        }
    }

    /// Whether an import has finished well since the last call, lowering the flag.
    pub fn take(&mut self) -> (succeeded: bool)
        ensures
            succeeded == old(self).pending,
            !final(self).pending,
    {
        let succeeded = self.pending;
        self.pending = false;
        succeeded
    }
}

/// The import jobs the screen offers.
#[derive(Clone, Copy, PartialEq, Eq, Debug, Structural)]
pub enum ImportSubTab {
    /// Pulling the game's files off an Android device through the bridge.
    Emulator,
    /// Decrypting pack files in a folder.
    Decrypt,
    /// Sorting raw data from a folder or an archive.
    Sort,
}

/// What the job button says, and whether it starts the chosen job: a job
/// is chosen, and what it needs is there (the bridge for a device, a folder
/// for decrypting, data for sorting).
pub open spec fn run_choice(
    selected: Option<ImportSubTab>,
    bridge: bool,
    decrypt_set: bool,
    import_set: bool,
) -> (Seq<char>, bool) {
    match selected {
        Some(ImportSubTab::Emulator) => (if bridge { "Start Job"@ } else { "Bridge Missing"@ }, bridge),
        Some(ImportSubTab::Decrypt) => (if decrypt_set { "Start Job"@ } else { "Select Source Folder"@ }, decrypt_set),
        Some(ImportSubTab::Sort) => (if import_set { "Start Job"@ } else { "Select Source Data"@ }, import_set),
        None => ("Select a Job"@, false),
    }
}

/// The job button's text and whether it starts the job; see [`run_choice`].
pub fn run_button(selected: Option<ImportSubTab>, bridge: bool, decrypt_path: &str, import_path: &str) -> (choice: (
    String,
    bool,
))
    ensures
        (choice.0@, choice.1) == run_choice(selected, bridge, decrypt_path@.len() > 0, import_path@.len() > 0),
{
    let decrypt_set = chars_of(decrypt_path).len() > 0;
    let import_set = chars_of(import_path).len() > 0;
    match selected {
        Some(ImportSubTab::Emulator) => if bridge {
            ("Start Job".to_owned(), true)
        } else {
            ("Bridge Missing".to_owned(), false)
        },
        Some(ImportSubTab::Decrypt) => if decrypt_set {
            ("Start Job".to_owned(), true)
        } else {
            ("Select Source Folder".to_owned(), false)
        },
        Some(ImportSubTab::Sort) => if import_set {
            ("Start Job".to_owned(), true)
        } else {
            ("Select Source Data".to_owned(), false)
        },
        None => ("Select a Job".to_owned(), false),
    }
}

/// Which button stands under the jobs.
#[derive(Clone, Copy, PartialEq, Eq, Debug, Structural)]
pub enum ActionButton {
    /// The last job completed; pressing it runs the chosen job again.
    Completed,
    /// The last job was called off; pressing it runs the chosen job again.
    Aborted,
    /// The running job is being called off; it cannot be pressed.
    Aborting,
    /// A job is running; pressing it calls the job off.
    Abort,
    /// Nothing is running; pressing it runs the chosen job.
    Run,
}

/// The button under the jobs: a banner left by the last job first, then an
/// abort under way, then a running job, and otherwise the run button.
pub open spec fn action_of(banner: Option<Banner>, running: bool, aborting: bool) -> ActionButton {
    if banner == Some(Banner::Completed) {
        ActionButton::Completed
    } else if banner == Some(Banner::Aborted) {
        ActionButton::Aborted
    } else if running && aborting {
        ActionButton::Aborting
    } else if running {
        ActionButton::Abort
    } else {
        ActionButton::Run
    }
}

/// Picks the button under the jobs; see [`action_of`].
pub fn action_button(banner: Option<Banner>, running: bool, aborting: bool) -> (button: ActionButton)
    ensures
        button == action_of(banner, running, aborting),
{
    match banner {
        Some(Banner::Completed) => ActionButton::Completed,
        Some(Banner::Aborted) => ActionButton::Aborted,
        None => if running && aborting {
            ActionButton::Aborting
        } else if running {
            ActionButton::Abort
        } else {
            ActionButton::Run
        },
    }
}

/// What a device import pulls: everything, or only what an update changed.
#[derive(Clone, Copy, PartialEq, Eq, Debug, Structural)]
pub enum AdbImportType {
    All,
    Update,
}

/// A game region a device import can target.
#[derive(Clone, Copy, PartialEq, Eq, Debug, Structural)]
pub enum Region {
    En,
    Ja,
    Tw,
    Ko,
}

/// Which region's game a device import pulls, or all of them.
#[derive(Clone, Copy, PartialEq, Eq, Debug, Structural)]
pub enum AdbTarget {
    Specific(Region),
    All,
}

/// The import type the type picker's index stands for: the second entry is
/// an update, anything else everything.
pub fn import_type_of(index: usize) -> (kind: AdbImportType)
    ensures
        kind == if index == 1 { AdbImportType::Update } else { AdbImportType::All },
{
    if index == 1 {
        AdbImportType::Update
    } else {
        AdbImportType::All
    }
}

/// The target the region picker's index stands for: global, Japan, Taiwan
/// and Korea in that order, and all regions past them.
pub fn target_of(index: usize) -> (target: AdbTarget)
    ensures
        target == if index == 0 {
            AdbTarget::Specific(Region::En)
        } else if index == 1 {
            AdbTarget::Specific(Region::Ja)
        } else if index == 2 {
            AdbTarget::Specific(Region::Tw)
        } else if index == 3 {
            AdbTarget::Specific(Region::Ko)
        } else {
            AdbTarget::All
        },
{
    if index == 0 {
        AdbTarget::Specific(Region::En)
    } else if index == 1 {
        AdbTarget::Specific(Region::Ja)
    } else if index == 2 {
        AdbTarget::Specific(Region::Tw)
    } else if index == 3 {
        AdbTarget::Specific(Region::Ko)
    } else {
        AdbTarget::All
    }
}

} // verus!
