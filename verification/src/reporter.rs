//! Telling the user which profiles are in use.

use vstd::prelude::*;

use crate::profile_runtime::{option_texts, same_names};
use crate::selection::{is_generic_profile_set, only_generic};
use crate::signals::copy_texts;
use crate::terminal_text::{escape_untrusted, escaped};
use crate::text::{concat, text_views};

verus! {

/// Names in a list, made safe for a terminal.
pub open spec fn name_list(names: Seq<Seq<char>>) -> Seq<char>
    decreases names.len(),
{
    if names.len() == 0 {
        Seq::empty()
    } else if names.len() == 1 {
        escaped(names[0])
    } else {
        name_list(names.drop_last()) + ", "@ + escaped(names.last())
    }
}

/// What has been told so far.
pub struct ReporterView {
    pub show: bool,
    pub detects: bool,
    pub last: Option<Seq<Seq<char>>>,
}

impl ReporterView {
    /// Whether these profiles are told: the generic profile alone is not,
    /// while another may still be detected, nor is what was told last.
    pub open spec fn tells(self, names: Seq<Seq<char>>) -> bool {
        self.show && !(self.detects && only_generic(names) && self.last is None) && self.last
            != Some(names)
    }

    pub open spec fn told(self, names: Seq<Seq<char>>) -> ReporterView {
        if self.tells(names) {
            ReporterView { last: Some(names), ..self }
        } else {
            self
        }
    }

    pub open spec fn message(self, names: Seq<Seq<char>>) -> Option<Seq<char>> {
        if self.tells(names) {
            Some("prismtty: profiles selected: "@ + name_list(names))
        } else {
            None
        }
    }

    /// Telling the same profiles twice in a row says nothing the second time.
    pub proof fn never_repeats(self, names: Seq<Seq<char>>)
        ensures
            self.tells(names) ==> !self.told(names).tells(names),
    {
    }
}

pub open spec fn option_text(text: Option<String>) -> Option<Seq<char>> {
    match text {
        Some(t) => Some(t@),
        None => None,
    }
}

fn list_names(names: &Vec<String>) -> (r: String)
    ensures
        r@ == name_list(text_views(names@)),
{
    let ghost all = text_views(names@);
    let mut out = String::new();
    let mut i: usize = 0;
    assert(out@ =~= name_list(all.take(0)));
    while i < names.len()
        invariant
            i <= names@.len(),
            all == text_views(names@),
            out@ == name_list(all.take(i as int)),
        decreases names@.len() - i,
    {
        let ghost before = out@;
        let shown = escape_untrusted(names[i].as_str());
        assert(all.take(i + 1).drop_last() =~= all.take(i as int));
        assert(all[i as int] == names@[i as int]@);
        if i > 0 {
            out.append(", ");
        }
        out.append(shown.as_str());
        assert(i == 0 ==> out@ =~= escaped(all.take(1)[0]));
        i = i + 1;
    }
    assert(all.take(i as int) =~= all);
    out
}

/// Tells the user which profiles are in use, each change once.
#[derive(Clone, Debug)]
pub struct ProfileReporter {
    show_profile: bool,
    auto_detect: bool,
    last_reported: Option<Vec<String>>,
}

impl View for ProfileReporter {
    type V = ReporterView;

    closed spec fn view(&self) -> ReporterView {
        ReporterView {
            show: self.show_profile,
            detects: self.auto_detect,
            last: option_texts(self.last_reported),
        }
    }
}

impl ProfileReporter {
    pub fn new(show_profile: bool, auto_detect: bool) -> (r: Self)
        ensures
            r@ == (ReporterView { show: show_profile, detects: auto_detect, last: None }),
    {
        ProfileReporter { show_profile, auto_detect, last_reported: None }
    }

    /// What to tell the user now that these profiles are in use.
    pub fn message_for(&mut self, profile_names: &Vec<String>) -> (r: Option<String>)
        ensures
            option_text(r) == old(self)@.message(text_views(profile_names@)),
            final(self)@ == old(self)@.told(text_views(profile_names@)),
    {
        if !self.show_profile {
            return None;
        }
        if self.auto_detect && is_generic_profile_set(profile_names)
            && self.last_reported.is_none() {
            return None;
        }
        if let Some(reported) = &self.last_reported {
            if same_names(reported, profile_names) {
                return None;
            }
        }
        self.last_reported = Some(copy_texts(profile_names));
        let names = list_names(profile_names);
        Some(concat("prismtty: profiles selected: ", names.as_str()))
    }
}

} // verus!
