//! What the user is told when the program fails.
use vstd::prelude::*;
use crate::cli::NalaParser;
use crate::config::{Config, Theme};
use crate::downloader::stderr_line;
use crate::text::{push_text, replace, replaced, text_opt, texts};

verus! {

/// An error or a warning of apt.
#[derive(Debug)]
pub struct AptError {
    pub is_error: bool,
    pub msg: String,
}

/// What the user is told of an error or a warning of apt: its text without
/// apt's own mark.
pub open spec fn apt_line(config: Config, error: AptError) -> Seq<char> {
    if error.is_error {
        stderr_line(config, Theme::Error, replaced(error.msg@, "E: "@, ""@))
    } else {
        stderr_line(config, Theme::Warning, replaced(error.msg@, "W: "@, ""@))
    }
}

/// What the user is told of errors and warnings of apt.
pub fn apt_lines(config: &Config, errors: &Vec<AptError>) -> (r: Vec<String>)
    ensures
        texts(r@) == Seq::new(errors@.len(), |i: int| apt_line(*config, errors@[i])),
{
    let ghost all = Seq::new(errors@.len(), |i: int| apt_line(*config, errors@[i]));
    let mut r: Vec<String> = Vec::new();
    let mut i: usize = 0;
    assert(texts(r@) =~= all.take(0));
    while i < errors.len()
        invariant
            i <= errors@.len(),
            all == Seq::new(errors@.len(), |k: int| apt_line(*config, errors@[k])),
            texts(r@) == all.take(i as int),
        decreases errors@.len() - i,
    {
        let line = if errors[i].is_error {
            config.stderr(Theme::Error, replace(errors[i].msg.as_str(), "E: ", "").as_str())
        } else {
            config.stderr(Theme::Warning, replace(errors[i].msg.as_str(), "W: ", "").as_str())
        };
        push_text(&mut r, line);
        assert(all.take(i + 1) =~= all.take(i as int).push(all[i as int]));
        i = i + 1;
    }
    assert(all.take(i as int) =~= all);
    r
}

/// The configuration file: the one that was given, else the usual one.
pub fn config_file(parser: &NalaParser) -> (r: String)
    ensures
        r@ == match text_opt(parser.config) {
            Some(path) => path,
            None => "/etc/nala/nala.conf"@,
        },
{
    match &parser.config {
        Some(path) => path.clone(),
        None => "/etc/nala/nala.conf".to_owned(),
    }
}

/// Every error and warning of apt is told, in order, under its own heading and
/// without apt's mark.
pub proof fn law_errors_are_told(config: &Config, errors: &Vec<AptError>, r: Vec<String>)
    requires
        call_ensures(apt_lines, (config, errors), r),
    ensures
        r@.len() == errors@.len(),
        forall|i: int|
            0 <= i < errors@.len() ==> (#[trigger] r@[i])@ == if errors@[i].is_error {
                stderr_line(*config, Theme::Error, replaced(errors@[i].msg@, "E: "@, ""@))
            } else {
                stderr_line(*config, Theme::Warning, replaced(errors@[i].msg@, "W: "@, ""@))
            },
{
    assert(texts(r@).len() == r@.len());
    assert forall|i: int| 0 <= i < errors@.len() implies (#[trigger] r@[i])@
        == if errors@[i].is_error {
        stderr_line(*config, Theme::Error, replaced(errors@[i].msg@, "E: "@, ""@))
    } else {
        stderr_line(*config, Theme::Warning, replaced(errors@[i].msg@, "W: "@, ""@))
    } by {
        assert(texts(r@)[i] == r@[i]@);
    }
}

/// The configuration file is the one that is given, or else the usual one.
pub proof fn law_configuration_file(parser: &NalaParser, r: String)
    requires
        call_ensures(config_file, (parser,), r),
    ensures
        parser.config is Some ==> r@ == parser.config->0@,
        parser.config is None ==> r@ == "/etc/nala/nala.conf"@,
{
}

} // verus!
