//! Updating the package lists.
use vstd::prelude::*;
use crate::config::{colored, flag, value_or, Config, Theme};
use crate::fetch::Key;
use crate::text::{
    decimal, decimal_of, has_prefix, push_text, replace, replaced, split_ended, split_terminator,
    starts_with, str_eq, texts,
};

verus! {

/// A key asks the update to stop.
pub fn poll_exit_event(key: Key) -> (r: bool)
    ensures
        r == (key == Key::Char('q')),
{
    match key {
        Key::Char('q') => true,
        _ => false,
    }
}

/// What the user is told of packages that can be upgraded. Nothing where there
/// are none.
pub fn update(config: &Config, upgradable: usize) -> (r: Option<String>)
    ensures
        match r {
            Some(s) => upgradable > 0 && s@ == colored(
                *config,
                Theme::Notice,
                decimal(upgradable as nat),
            ) + " packages can be upgraded. Run '"@ + colored(
                *config,
                Theme::Primary,
                "nala list --upgradable"@,
            ) + "' to see them."@,
            None => upgradable == 0,
        },
{
    if upgradable == 0 {
        return None;
    }
    let mut r = config.color(Theme::Notice, decimal_of(upgradable as u128).as_str());
    r.append(" packages can be upgraded. Run '");
    r.append(config.color(Theme::Primary, "nala list --upgradable").as_str());
    r.append("' to see them.");
    Some(r)
}

/// The state of an item that is fetched.
#[derive(Debug, Clone, Copy, PartialEq, Eq, Structural)]
pub enum ItemState {
    StatIdle,
    StatFetching,
    StatDone,
    StatError,
    StatAuthError,
    StatTransientNetworkError,
}

/// What one of the workers does.
#[derive(Debug)]
pub struct Worker {
    pub status: ItemState,
    /// What works on the item now.
    pub active_subprocess: String,
    /// Where the item goes.
    pub dest_file: String,
    pub uri: String,
}

/// How an update is shown.
#[derive(Debug)]
pub struct NalaAcquireProgress {
    pub message: Vec<String>,
    pub pulse_interval: usize,
    pub ign: String,
    pub hit: String,
    pub get: String,
    pub err: String,
    pub stop: bool,
}

/// The words for what a worker does.
pub open spec fn work_text(subprocess: Seq<char>) -> Seq<char> {
    (if subprocess.len() == 0 {
        "Downloading"@
    } else if subprocess == "store"@ {
        "Processing"@
    } else {
        subprocess
    }) + ": "@
}

/// The address of an item, by the file that it goes to. The address that it is
/// fetched from names its hash.
pub open spec fn item_address(dest_file: Seq<char>, uri: Seq<char>) -> Seq<char> {
    (if has_prefix(uri, "https"@) {
        "https://"@
    } else {
        "http://"@
    }) + replaced(split_ended(dest_file, "/"@).last(), "_"@, "/"@)
}

/// A worker is shown: it fetches something that goes somewhere.
pub open spec fn is_shown(worker: Option<Worker>) -> bool {
    match worker {
        Some(w) => w.status == ItemState::StatFetching && split_ended(w.dest_file@, "/"@).len() > 0,
        None => false,
    }
}

/// What the first `n` workers do. In a slim display only the first of them is
/// shown.
pub open spec fn worker_texts(workers: Seq<Option<Worker>>, verbose: bool, n: int) -> Seq<Seq<char>>
    decreases n,
{
    if n <= 0 {
        Seq::empty()
    } else {
        let before = worker_texts(workers, verbose, n - 1);
        if is_shown(workers[n - 1]) && (verbose || before.len() == 0) {
            let w = workers[n - 1]->0;
            before.push(work_text(w.active_subprocess@)).push(item_address(w.dest_file@, w.uri@))
        } else {
            before
        }
    }
}

/// The size of an item, where it is known.
pub open spec fn size_note(file_size: u64, size: Seq<char>) -> Seq<char> {
    if file_size != 0 {
        " ["@ + size + "]"@
    } else {
        Seq::empty()
    }
}

fn note_size(file_size: u64, size: &str) -> (r: String)
    ensures
        r@ == size_note(file_size, size@),
{
    if file_size == 0 {
        return String::new();
    }
    let mut r = " [".to_owned();
    r.append(size);
    r.append("]");
    r
}

impl NalaAcquireProgress {
    /// Nothing is fetched yet.
    pub fn new(config: &Config) -> (r: Self)
        ensures
            r.message@ == Seq::<String>::empty(),
            r.pulse_interval == 0,
            r.ign@ == colored(*config, Theme::Notice, "Ignored"@),
            r.hit@ == colored(*config, Theme::Primary, "No Change"@),
            r.get@ == colored(*config, Theme::Secondary, "Updated"@),
            r.err@ == colored(*config, Theme::Error, "Error"@),
            !r.stop,
    {
        NalaAcquireProgress {
            message: Vec::new(),
            pulse_interval: 0,
            ign: config.color(Theme::Notice, "Ignored"),
            hit: config.color(Theme::Primary, "No Change"),
            get: config.color(Theme::Secondary, "Updated"),
            err: config.color(Theme::Error, "Error"),
            stop: false,
        }
    }

    /// Whether anything is drawn. Nothing is once the update was stopped.
    pub fn draws(&self) -> (r: bool)
        ensures
            r == !self.stop,
    {
        !self.stop
    }

    /// The line for an item that is up to date. `size` is its size for a
    /// reader, and is shown where the size is known.
    pub fn hit(&self, description: &str, file_size: u64, size: &str) -> (r: String)
        ensures
            r@ == self.hit@ + ": "@ + description@ + size_note(file_size, size@),
    {
        let mut r = self.hit.clone();
        r.append(": ");
        r.append(description);
        r.append(note_size(file_size, size).as_str());
        r
    }

    /// The line for an item that is being fetched. `size` is its size for a
    /// reader, and is shown where the size is known.
    pub fn fetch(&self, description: &str, file_size: u64, size: &str) -> (r: String)
        ensures
            r@ == self.get@ + ":   "@ + description@ + size_note(file_size, size@),
    {
        let mut r = self.get.clone();
        r.append(":   ");
        r.append(description);
        r.append(note_size(file_size, size).as_str());
        r
    }

    /// The line for the end of the update: what was fetched, in what time and
    /// how fast, each for a reader. Nothing where there is an error to be shown.
    pub fn stop(
        &self,
        config: &Config,
        pending_error: bool,
        fetched_bytes: u64,
        fetched: &str,
        time: &str,
        rate: &str,
    ) -> (r: Option<String>)
        ensures
            match r {
                None => pending_error,
                Some(s) => !pending_error && s@ == if fetched_bytes != 0 {
                    colored(
                        *config,
                        Theme::Highlight,
                        "Fetched "@ + fetched@ + " in "@ + time@ + " ("@ + rate@ + "/s)"@,
                    )
                } else {
                    "Nothing to fetch."@
                },
            },
    {
        if pending_error {
            return None;
        }
        if fetched_bytes == 0 {
            return Some("Nothing to fetch.".to_owned());
        }
        let mut text = "Fetched ".to_owned();
        text.append(fetched);
        text.append(" in ");
        text.append(time);
        text.append(" (");
        text.append(rate);
        text.append("/s)");
        Some(config.highlight(text.as_str()))
    }

    /// The lines for an item that could not be fetched. An idle item is
    /// ignored, and its error is shown only where there is one.
    pub fn fail(&self, config: &Config, status: ItemState, description: &str, error_text: &str) -> (r:
        Vec<String>)
        ensures
            ({
                let ignored = status == ItemState::StatIdle || status == ItemState::StatDone;
                let header = if ignored {
                    self.ign@
                } else {
                    self.err@
                };
                let show = value_or(
                    config.apt.bools@,
                    "Acquire::Progress::Ignore::ShowErrorText"@,
                    true,
                ) && !(ignored && error_text@.len() == 0);
                texts(r@) == if show {
                    seq![header + ": "@ + description@, error_text@]
                } else {
                    seq![header + ": "@ + description@]
                }
            }),
    {
        let mut show_error = config.apt.bool("Acquire::Progress::Ignore::ShowErrorText", true);
        let mut line = match status {
            ItemState::StatIdle | ItemState::StatDone => {
                if error_text.is_empty() {
                    show_error = false;
                }
                self.ign.clone()
            },
            _ => self.err.clone(),
        };
        let ghost header = line@;
        line.append(": ");
        line.append(description);
        let mut r: Vec<String> = Vec::new();
        r.push(line);
        assert(texts(r@) =~= seq![header + ": "@ + description@]);
        if show_error {
            push_text(&mut r, error_text.to_owned());
            assert(texts(r@) =~= seq![header + ": "@ + description@, error_text@]);
        }
        r
    }

    /// Takes what the workers do as the message. Where the user asked to stop,
    /// the update is stopped instead.
    pub fn pulse(&mut self, config: &Config, asked_to_stop: bool, workers: &Vec<Option<Worker>>)
        ensures
            final(self).stop == (old(self).stop || asked_to_stop),
            texts(final(self).message@) == if asked_to_stop {
                texts(old(self).message@)
            } else {
                worker_texts(
                    workers@,
                    flag(*config, "verbose"@, false),
                    workers@.len() as int,
                )
            },
            final(self).pulse_interval == old(self).pulse_interval,
            final(self).ign == old(self).ign,
            final(self).hit == old(self).hit,
            final(self).get == old(self).get,
            final(self).err == old(self).err,
    {
        if asked_to_stop {
            self.stop = true;
            return ;
        }
        let verbose = config.get_bool("verbose", false);
        let mut strings: Vec<String> = Vec::new();
        let mut i: usize = 0;
        assert(texts(strings@) =~= Seq::empty());
        while i < workers.len()
            invariant
                i <= workers@.len(),
                texts(strings@) == worker_texts(workers@, verbose, i as int),
            decreases workers@.len() - i,
        {
            assert(texts(strings@).len() == strings@.len());
            if let Some(worker) = &workers[i] {
                let fetching = match worker.status {
                    ItemState::StatFetching => true,
                    _ => false,
                };
                let parts = split_terminator(worker.dest_file.as_str(), "/");
                assert(texts(parts@).len() == parts@.len());
                if fetching && parts.len() > 0 && (verbose || strings.len() == 0) {
                    let mut work = if worker.active_subprocess.as_str().is_empty() {
                        "Downloading".to_owned()
                    } else if str_eq(worker.active_subprocess.as_str(), "store") {
                        "Processing".to_owned()
                    } else {
                        worker.active_subprocess.clone()
                    };
                    work.append(": ");
                    // Build the correct URI by destination file.
                    let mut uri = if starts_with(worker.uri.as_str(), "https") {
                        "https://".to_owned()
                    } else {
                        "http://".to_owned()
                    };
                    assert(texts(parts@).last() == parts@[parts@.len() - 1]@);
                    uri.append(replace(parts[parts.len() - 1].as_str(), "_", "/").as_str());
                    push_text(&mut strings, work);
                    push_text(&mut strings, uri);
                }
            }
            i = i + 1;
        }
        self.message = strings;
    }
}

/// In a slim display at most one worker is shown.
pub proof fn law_slim_shows_one(workers: Seq<Option<Worker>>, n: int)
    requires
        0 <= n <= workers.len(),
    ensures
        worker_texts(workers, false, n).len() == 0 || worker_texts(workers, false, n).len() == 2,
    decreases n,
{
    if n > 0 {
        law_slim_shows_one(workers, n - 1);
    }
}

/// The user is told how many packages can be upgraded, if any can.
pub proof fn law_upgradable_are_told(config: &Config, upgradable: usize, r: Option<String>)
    requires
        call_ensures(update, (config, upgradable), r),
    ensures
        r is Some <==> upgradable > 0,
        r is Some ==> r->0@ == colored(*config, Theme::Notice, decimal(upgradable as nat))
            + " packages can be upgraded. Run '"@ + colored(
            *config,
            Theme::Primary,
            "nala list --upgradable"@,
        ) + "' to see them."@,
{
}

/// Only `q` leaves an update.
pub proof fn law_exit_key(key: Key, r: bool)
    requires
        call_ensures(poll_exit_event, (key,), r),
    ensures
        r <==> key == Key::Char('q'),
{
}

/// What became of an index is told under its own heading, with its size where
/// that is known.
pub proof fn law_lines_of_an_index(
    config: &Config,
    progress: NalaAcquireProgress,
    description: &str,
    file_size: u64,
    size: &str,
    same: String,
    new: String,
)
    requires
        call_ensures(NalaAcquireProgress::new, (config,), progress),
        call_ensures(NalaAcquireProgress::hit, (&progress, description, file_size, size), same),
        call_ensures(NalaAcquireProgress::fetch, (&progress, description, file_size, size), new),
    ensures
        ({
            let note = if file_size == 0 {
                Seq::<char>::empty()
            } else {
                " ["@ + size@ + "]"@
            };
            &&& same@ == colored(*config, Theme::Primary, "No Change"@) + ": "@ + description@
                + note
            &&& new@ == colored(*config, Theme::Secondary, "Updated"@) + ":   "@ + description@
                + note
        }),
{
}

/// The end of an update is told unless an error is: what was fetched, if
/// anything was.
pub proof fn law_end_of_an_update(
    progress: &NalaAcquireProgress,
    config: &Config,
    pending_error: bool,
    fetched_bytes: u64,
    fetched: &str,
    time: &str,
    rate: &str,
    r: Option<String>,
)
    requires
        call_ensures(
            NalaAcquireProgress::stop,
            (progress, config, pending_error, fetched_bytes, fetched, time, rate),
            r,
        ),
    ensures
        r is None <==> pending_error,
        r is Some && fetched_bytes == 0 ==> r->0@ == "Nothing to fetch."@,
        r is Some && fetched_bytes > 0 ==> r->0@ == colored(
            *config,
            Theme::Highlight,
            "Fetched "@ + fetched@ + " in "@ + time@ + " ("@ + rate@ + "/s)"@,
        ),
{
}

/// An index that fails is told as ignored or as an error, by its state. What the
/// error says follows, unless that is switched off, or the index is ignored and
/// nothing is said.
pub proof fn law_failed_index(
    config: &Config,
    progress: NalaAcquireProgress,
    status: ItemState,
    description: &str,
    error_text: &str,
    r: Vec<String>,
)
    requires
        call_ensures(NalaAcquireProgress::new, (config,), progress),
        call_ensures(
            NalaAcquireProgress::fail,
            (&progress, config, status, description, error_text),
            r,
        ),
    ensures
        ({
            let ignored = status == ItemState::StatIdle || status == ItemState::StatDone;
            let key = "Acquire::Progress::Ignore::ShowErrorText"@;
            let off = config.apt.bools@.dom().contains(key) && !config.apt.bools@[key];
            &&& ignored ==> r@[0]@ == colored(*config, Theme::Notice, "Ignored"@) + ": "@
                + description@
            &&& !ignored ==> r@[0]@ == colored(*config, Theme::Error, "Error"@) + ": "@
                + description@
            &&& r@.len() == 2 <==> !off && (!ignored || error_text@.len() > 0)
            &&& r@.len() == 1 || r@.len() == 2
            &&& r@.len() == 2 ==> r@[1]@ == error_text@
        }),
{
    let lines = texts(r@);
    assert(lines.len() == r@.len());
    assert(lines[0] == r@[0]@);
    if r@.len() == 2 {
        assert(lines[1] == r@[1]@);
    }
}

/// The texts for a worker: what it does, and the address that it works on.
pub open spec fn texts_of(worker: Worker) -> Seq<Seq<char>> {
    let work = if worker.active_subprocess@.len() == 0 {
        "Downloading"@
    } else if worker.active_subprocess@ == "store"@ {
        "Processing"@
    } else {
        worker.active_subprocess@
    };
    let scheme = if has_prefix(worker.uri@, "https"@) {
        "https://"@
    } else {
        "http://"@
    };
    let address = replaced(split_ended(worker.dest_file@, "/"@).last(), "_"@, "/"@);
    seq![work + ": "@, scheme + address]
}

/// A worker that fetches a file is shown.
pub open spec fn fetches(worker: Option<Worker>) -> bool {
    worker is Some && worker->0.status == ItemState::StatFetching && split_ended(
        worker->0.dest_file@,
        "/"@,
    ).len() > 0
}

proof fn lemma_all_workers(
    workers: Seq<Option<Worker>>,
    n: int,
    make: spec_fn(Option<Worker>) -> Seq<Seq<char>>,
)
    requires
        0 <= n <= workers.len(),
        forall|w: Option<Worker>|
            #[trigger] make(w) == if fetches(w) {
                texts_of(w->0)
            } else {
                Seq::empty()
            },
    ensures
        worker_texts(workers, true, n) == workers.take(n).map_values(make).flatten(),
    decreases n,
{
    if n <= 0 {
        assert(workers.take(n).map_values(make) =~= Seq::<Seq<Seq<char>>>::empty());
        assert(Seq::<Seq<Seq<char>>>::empty().flatten() =~= Seq::<Seq<char>>::empty());
    } else {
        lemma_all_workers(workers, n - 1, make);
        assert(workers.take(n) =~= workers.take(n - 1).push(workers[n - 1]));
        crate::seqs::lemma_map_push(workers.take(n - 1), workers[n - 1], make);
        let parts = workers.take(n - 1).map_values(make);
        parts.lemma_flatten_push(make(workers[n - 1]));
        let before = worker_texts(workers, true, n - 1);
        if fetches(workers[n - 1]) {
            let w = workers[n - 1]->0;
            assert(before.push(work_text(w.active_subprocess@)).push(
                item_address(w.dest_file@, w.uri@),
            ) =~= before + texts_of(w));
        } else {
            assert(before + Seq::<Seq<char>>::empty() =~= before);
        }
    }
}

proof fn lemma_first_worker(workers: Seq<Option<Worker>>, n: int)
    requires
        0 <= n <= workers.len(),
    ensures
        (forall|i: int| 0 <= i < n ==> !fetches(#[trigger] workers[i])) ==> worker_texts(
            workers,
            false,
            n,
        ).len() == 0,
        forall|i: int|
            0 <= i < n && fetches(#[trigger] workers[i]) && (forall|j: int|
                0 <= j < i ==> !fetches(#[trigger] workers[j])) ==> worker_texts(workers, false, n)
                == texts_of(workers[i]->0),
    decreases n,
{
    if n > 0 {
        lemma_first_worker(workers, n - 1);
        let before = worker_texts(workers, false, n - 1);
        if before.len() == 0 {
            assert(before =~= Seq::<Seq<char>>::empty());
        }
        if fetches(workers[n - 1]) && before.len() == 0 {
            let w = workers[n - 1]->0;
            assert(before.push(work_text(w.active_subprocess@)).push(
                item_address(w.dest_file@, w.uri@),
            ) =~= texts_of(w));
        }
    }
}

/// Every worker that fetches something is shown where all is asked for, and else
/// the first of them. When it is asked to stop, nothing new is shown, and it
/// stays stopped.
pub proof fn law_workers_are_shown(
    progress: &mut NalaAcquireProgress,
    config: &Config,
    asked_to_stop: bool,
    workers: &Vec<Option<Worker>>,
    r: (),
    first: int,
)
    requires
        call_ensures(NalaAcquireProgress::pulse, (progress, config, asked_to_stop, workers), r),
    ensures
        asked_to_stop ==> final(progress).stop && texts(final(progress).message@) == texts(
            old(progress).message@,
        ),
        old(progress).stop ==> final(progress).stop,
        !asked_to_stop ==> final(progress).stop == old(progress).stop,
        !asked_to_stop && flag(*config, "verbose"@, false) ==> texts(final(progress).message@)
            == workers@.map_values(
            |w: Option<Worker>|
                if fetches(w) {
                    texts_of(w->0)
                } else {
                    Seq::empty()
                },
        ).flatten(),
        !asked_to_stop && !flag(*config, "verbose"@, false) && 0 <= first < workers@.len()
            && fetches(workers@[first]) && (forall|j: int|
            0 <= j < first ==> !fetches(#[trigger] workers@[j])) ==> texts(final(progress).message@)
            == texts_of(workers@[first]->0),
        !asked_to_stop && (forall|j: int|
            0 <= j < workers@.len() ==> !fetches(#[trigger] workers@[j])) && !flag(
            *config,
            "verbose"@,
            false,
        ) ==> final(progress).message@.len() == 0,
{
    let n = workers@.len() as int;
    lemma_first_worker(workers@, n);
    lemma_all_workers(
        workers@,
        n,
        |w: Option<Worker>|
            if fetches(w) {
                texts_of(w->0)
            } else {
                Seq::empty()
            },
    );
    assert(workers@.take(n) =~= workers@);
    assert(texts(final(progress).message@).len() == final(progress).message@.len());
}

} // verus!
