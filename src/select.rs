//! Choosing the reply to an ordinary message, and applying commands to the store.

use vstd::prelude::*;
use rand::Rng;
use crate::command::{command_of, parse_command, Command, CommandView};
use crate::store::{
    add_entry, entry_clean, lemma_add_clean, lemma_remove_clean, lemma_set_clean, lookup, lower_of,
    lowercase, remove_entry, set_entry, store_clean, EntryView, ReplyStore,
};

verus! {

/// Relies on rand's `thread_rng().gen_range(0..n)`: a number below `n`.
/// `gen_range` panics on an empty range, hence `n > 0`.
#[verifier::external_body]
pub(crate) fn draw_below(n: u64) -> (r: u64)
    requires
        n > 0,
    ensures
        r < n,
{
    rand::thread_rng().gen_range(0..n)
}

/// The reply at `index`, if there is one.
pub fn pick_reply(replies: &Vec<String>, index: u64) -> (r: Option<String>)
    ensures
        (index as int) < replies@.len() ==> r == Some(replies@[index as int]),
        (index as int) >= replies@.len() ==> r is None,
{
    if index < replies.len() as u64 {
        Some(replies[index as usize].clone())
    } else {
        None
    }
}

/// A command whose key, once lowercased, and replies can be written to the file
/// and read back; others are ignored.
pub open spec fn admits(c: CommandView) -> bool {
    match c {
        CommandView::SetReplies(u, r) => entry_clean((lower_of(u), r)),
        CommandView::AddReplies(u, r) => entry_clean((lower_of(u), r)),
        _ => true,
    }
}

/// The store after a command; an ordinary, dropped or inadmissible message leaves it alone.
pub open spec fn apply_spec(m: Seq<EntryView>, c: CommandView) -> Seq<EntryView> {
    if !admits(c) {
        m
    } else {
        apply_admitted(m, c)
    }
}

pub open spec fn apply_admitted(m: Seq<EntryView>, c: CommandView) -> Seq<EntryView> {
    match c {
        CommandView::SetReplies(u, r) => set_entry(m, lower_of(u), r),
        CommandView::AddReplies(u, r) => add_entry(m, lower_of(u), r),
        CommandView::Unset(u) => remove_entry(m, lower_of(u)),
        _ => m,
    }
}

impl ReplyStore {
    /// A reply for a message by `username`, chosen uniformly among the stored ones;
    /// nothing if the user has no entry or no replies.
    pub fn select_reply(&self, username: &str) -> (r: Option<String>)
        requires
            self.wf(),
        ensures
            r is None <==> (lookup(self.view(), lower_of(username@)) is None
                || lookup(self.view(), lower_of(username@))->0.len() == 0),
            r matches Some(s) ==> lookup(self.view(), lower_of(username@))->0.contains(s@),
    {
        match self.get(username) {
            None => None,
            Some(replies) => {
                if replies.len() == 0 {
                    None
                } else {
                    let i = draw_below(replies.len() as u64);
                    let r = pick_reply(&replies, i);
                    proof {
                        assert(replies.deep_view()[i as int] == replies@[i as int]@);
                    }
                    r
                }
            }
        }
    }

    /// Carries out what `command` asks of the store.
    pub fn apply(&mut self, command: Command)
        requires
            old(self).wf(),
        ensures
            final(self).view() == apply_spec(old(self).view(), command.view()),
            final(self).wf(),
            store_clean(old(self).view()) ==> store_clean(final(self).view()),
    {
        let ghost m = self.view();
        match command {
            Command::SetReplies { username, replies } => {
                let key = lowercase(username.as_str());
                if ReplyStore::is_clean(&key, &replies) {
                    proof {
                        if store_clean(m) {
                            lemma_set_clean(m, key@, replies.deep_view());
                        }
                    }
                    self.set_key(key, replies);
                }
            },
            Command::AddReplies { username, replies } => {
                let key = lowercase(username.as_str());
                if ReplyStore::is_clean(&key, &replies) {
                    proof {
                        if store_clean(m) {
                            lemma_add_clean(m, key@, replies.deep_view());
                        }
                    }
                    self.add_key(key, replies);
                }
            },
            Command::Unset { username } => {
                proof {
                    if store_clean(m) {
                        lemma_remove_clean(m, lower_of(username@));
                    }
                }
                self.remove(username.as_str());
            },
            _ => {},
        }
    }

    /// Handles one message: a command changes the store and gets no reply; any
    /// other text gets a reply chosen for its author, if the author has one.
    pub fn process(&mut self, author: &str, content: &str) -> (r: Option<String>)
        requires
            old(self).wf(),
        ensures
            final(self).view() == apply_spec(old(self).view(), command_of(content@)),
            final(self).wf(),
            store_clean(old(self).view()) ==> store_clean(final(self).view()),
            !(command_of(content@) is Message) ==> r is None,
            command_of(content@) is Message ==> (r is None <==> (lookup(
                old(self).view(),
                lower_of(author@),
            ) is None || lookup(old(self).view(), lower_of(author@))->0.len() == 0)),
            command_of(content@) is Message && r is Some ==> lookup(
                old(self).view(),
                lower_of(author@),
            )->0.contains(r->0@),
    {
        let command = parse_command(content);
        match command {
            Command::Message => self.select_reply(author),
            _ => {
                self.apply(command);
                None
            },
        }
    }
}

} // verus!
