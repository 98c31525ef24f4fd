//! User preferences that outlive a session: those that decide something here.
//!
//! How the window is arranged and coloured is kept beside these, and means
//! nothing to what is decided here.

use vstd::prelude::*;
use crate::pathname::Style;
use crate::journal;
use crate::journal::{Journal, Keep, Stream};
use crate::paths;
use crate::text;

verus! {

broadcast use vstd::string::group_string_axioms;

#[derive(Debug, Clone, PartialEq, Eq)]
pub struct Settings {
    /// Which shell to run commands with. `None` means "whatever the
    /// environment says".
    pub shell: Option<String>,
    /// The chosen theme, when it is one of the presets.
    pub theme: Option<String>,
    /// How many days of the account of what was done to keep. Absent means
    /// the default of thirty; zero means for ever.
    pub journal_days: Option<u32>,
    /// Whether to keep an account at all. Absent means yes.
    pub journal: Option<bool>,
    /// Whether the shell picker should offer only the shells whose commands
    /// can be recorded. Absent means no.
    pub journaled_shells_only: Option<bool>,
}

impl Default for Settings {
    fn default() -> (r: Settings)
        ensures
            r.shell is None,
            r.theme is None,
            r.journal_days is None,
            r.journal is None,
            r.journaled_shells_only is None,
    {
        Settings {
            shell: None,
            theme: None,
            journal_days: None,
            journal: None,
            journaled_shells_only: None,
        }
    }
}

/// How long an account is kept for.
pub open spec fn days_kept(settings: Settings) -> u32 {
    match settings.journal_days {
        Some(days) => days,
        None => 30,
    }
}

/// Whether an account is kept.
pub open spec fn keeps_account(settings: Settings) -> bool {
    match settings.journal {
        Some(keeps) => keeps,
        None => true,
    }
}

/// Whether only shells that can be recorded are offered.
pub open spec fn only_recorded(settings: Settings) -> bool {
    match settings.journaled_shells_only {
        Some(only) => only,
        None => false,
    }
}

/// The programs that are among some others, in their order.
pub open spec fn those_among(found: Seq<Seq<char>>, journaled: Seq<Seq<char>>) -> Seq<Seq<char>>
    decreases found.len(),
{
    if found.len() == 0 {
        Seq::empty()
    } else if journaled.contains(found.last()) {
        those_among(found.drop_last(), journaled).push(found.last())
    } else {
        those_among(found.drop_last(), journaled)
    }
}

/// The shells to offer: narrowing never empties the list.
pub open spec fn offered(
    settings: Settings,
    found: Seq<Seq<char>>,
    journaled: Seq<Seq<char>>,
) -> Seq<Seq<char>> {
    let narrowed = those_among(found, journaled);
    if !only_recorded(settings) || narrowed.len() == 0 {
        found
    } else {
        narrowed
    }
}

impl Settings {
    /// Where the settings are kept.
    pub fn config_path(style: Style, config_dir: Option<&str>) -> (r: Option<String>)
        ensures
            text::optional(r) == paths::own(style, text::maybe(config_dir), "settings.toml"@),
    {
        paths::own_file(style, config_dir, "settings.toml")
    }

    /// How long the account is kept for.
    pub fn keep(&self) -> (r: Keep)
        ensures
            r.0 == days_kept(*self),
    {
        match self.journal_days {
            Some(days) => Keep(days),
            None => Keep(30),
        }
    }

    /// Whether anything is recorded at all.
    pub fn keeps_a_journal(&self) -> (r: bool)
        ensures
            r == keeps_account(*self),
    {
        match self.journal {
            Some(keeps) => keeps,
            None => true,
        }
    }

    /// Whether the picker is narrowed to the shells that can be recorded.
    pub fn only_journaled_shells(&self) -> (r: bool)
        ensures
            r == only_recorded(*self),
    {
        match self.journaled_shells_only {
            Some(only) => only,
            None => false,
        }
    }

    /// The shells to offer, given that preference and which programs can be
    /// recorded. Narrowing never empties the list.
    pub fn shells_to_offer(&self, found: Vec<String>, journaled: &Vec<String>) -> (r: Vec<String>)
        ensures
            text::views(r@) == offered(*self, text::views(found@), text::views(journaled@)),
    {
        if !self.only_journaled_shells() {
            return found;
        }
        let ghost all = text::views(found@);
        let mut narrowed: Vec<String> = Vec::new();
        let mut i: usize = 0;
        assert(all.take(0) =~= Seq::<Seq<char>>::empty());
        assert(text::views(narrowed@) =~= Seq::empty());
        while i < found.len()
            invariant
                i <= found@.len(),
                all == text::views(found@),
                text::views(narrowed@) == those_among(
                    all.take(i as int),
                    text::views(journaled@),
                ),
            decreases found@.len() - i,
        {
            proof {
                assert(all.take(i + 1).drop_last() =~= all.take(i as int));
                assert(all.take(i + 1).last() == found@[i as int]@);
            }
            if text::among(found[i].as_str(), journaled) {
                let ghost was = text::views(narrowed@);
                narrowed.push(found[i].clone());
                assert(text::views(narrowed@) =~= was.push(found@[i as int]@));
            }
            i += 1;
        }
        assert(all.take(i as int) =~= all);
        if narrowed.len() == 0 {
            return found;
        }
        narrowed
    }

    /// The journal these settings ask for, or nothing where it is turned off
    /// or there is nowhere to put it.
    pub fn journal(&self, dir: Option<&str>) -> (r: Option<Journal>)
        ensures
            match r {
                Some(journal) => keeps_account(*self) && dir is Some && journal.place() == dir->0@
                    && journal.kept().0 == days_kept(*self) && journal.memory(Stream::Files) is None
                    && journal.memory(Stream::Shell) is None && journal.changes() == 0,
                None => !keeps_account(*self) || dir is None,
            },
    {
        if !self.keeps_a_journal() {
            return None;
        }
        match dir {
            Some(dir) => Some(Journal::at(dir, self.keep())),
            None => None,
        }
    }
}

// ---- laws -------------------------------------------------------------------------------------

/// Narrowing never leaves nothing to offer, where there is anything.
pub proof fn law_narrowing_never_empties_the_list(
    settings: Settings,
    found: Seq<Seq<char>>,
    journaled: Seq<Seq<char>>,
)
    requires
        found.len() > 0,
    ensures
        offered(settings, found, journaled).len() > 0,
{
}

/// Zero days means for ever: nothing is too old to keep.
pub proof fn law_zero_days_means_for_ever(
    settings: Settings,
    today: journal::Day,
    name: Seq<char>,
)
    requires
        settings.journal_days == Some(0u32),
    ensures
        !(journal::sweeps(Keep(days_kept(settings)), today))(name),
{
}

/// What was not set is as it is without a setting: an account is kept, for
/// thirty days, and every shell is offered. What was set is as it was set.
pub proof fn law_settings_are_as_they_were_set(settings: Settings)
    ensures
        settings.journal_days is None ==> days_kept(settings) == 30,
        settings.journal_days matches Some(days) ==> days_kept(settings) == days,
        keeps_account(settings) <==> settings.journal != Some(false),
        only_recorded(settings) <==> settings.journaled_shells_only == Some(true),
{
}

/// Narrowed, the list is of the shells that can be recorded, in the order
/// they were found; not narrowed, it is what was found.
pub proof fn law_narrowing_keeps_what_can_be_recorded(
    settings: Settings,
    found: Seq<Seq<char>>,
    journaled: Seq<Seq<char>>,
)
    ensures
        ({
            let recorded = found.filter(|shell: Seq<char>| journaled.contains(shell));
            &&& settings.journaled_shells_only != Some(true) ==> offered(settings, found, journaled)
                == found
            &&& settings.journaled_shells_only == Some(true) && recorded.len() > 0 ==> offered(
                settings,
                found,
                journaled,
            ) == recorded
        }),
{
    lemma_those_among(found, journaled);
}

proof fn lemma_those_among(found: Seq<Seq<char>>, journaled: Seq<Seq<char>>)
    ensures
        those_among(found, journaled) == found.filter(
            |shell: Seq<char>| journaled.contains(shell),
        ),
    decreases found.len(),
{
    reveal(Seq::filter);
    if found.len() > 0 {
        lemma_those_among(found.drop_last(), journaled);
    }
}

} // verus!
