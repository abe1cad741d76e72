use vstd::prelude::*;

use crate::message_sender::{MediaGroupId, MessageInfo};
use crate::settings::{
    lemma_with_recepient_unique, lemma_without_recepient, with_recepient, without_recepient,
    Accessor, Recepient, Settings,
};

verus! {

/// The commands that a chat can send.
#[derive(Clone, Copy, Debug, PartialEq, Eq, Structural)]
pub enum Command {
    Subscribe,
    Unsubscribe,
}

/// The recipients after `cmd` was applied for `r`.
pub open spec fn apply_spec(s: Seq<Recepient>, cmd: Command, r: Recepient) -> Seq<Recepient> {
    match cmd {
        Command::Subscribe => with_recepient(s, r),
        Command::Unsubscribe => without_recepient(s, r),
    }
}

/// The recipients after the commands of `cmds`, in order.
pub open spec fn after_commands(s: Seq<Recepient>, cmds: Seq<(Command, Recepient)>) -> Seq<Recepient>
    decreases cmds.len(),
{
    if cmds.len() == 0 {
        s
    } else {
        apply_spec(after_commands(s, cmds.drop_last()), cmds.last().0, cmds.last().1)
    }
}

/// Whatever subscribe and unsubscribe commands come, in whatever order, a set of
/// recipients without repeated entries keeps none.
pub proof fn lemma_commands_keep_unique(s: Seq<Recepient>, cmds: Seq<(Command, Recepient)>)
    requires
        s.no_duplicates(),
    ensures
        after_commands(s, cmds).no_duplicates(),
    decreases cmds.len(),
{
    if cmds.len() > 0 {
        let before = after_commands(s, cmds.drop_last());
        lemma_commands_keep_unique(s, cmds.drop_last());
        lemma_with_recepient_unique(before, cmds.last().1);
        lemma_without_recepient(before, cmds.last().1);
    }
}

/// Subscribing twice is subscribing once.
pub proof fn lemma_subscribe_idempotent(s: Seq<Recepient>, r: Recepient)
    ensures
        with_recepient(with_recepient(s, r), r) == with_recepient(s, r),
{
    if !s.contains(r) {
        assert(s.push(r)[s.len() as int] == r);
    }
}

/// Unsubscribing a recipient that is not there changes nothing.
pub proof fn lemma_unsubscribe_absent(s: Seq<Recepient>, r: Recepient)
    requires
        !s.contains(r),
    ensures
        without_recepient(s, r) == s,
    decreases s.len(),
{
    if s.len() > 0 {
        let p = s.drop_last();
        assert(!p.contains(r)) by {
            if p.contains(r) {
                let i = choose|i: int| 0 <= i < p.len() && p[i] == r;
                assert(s[i] == r);
            }
        }
        lemma_unsubscribe_absent(p, r);
        assert(s.last() != r) by {
            assert(s[s.len() - 1] == s.last());
        }
        assert(p.push(s.last()) =~= s);
    }
}

impl Accessor {
    /// Applies `cmd` for `recepient`; returns the document to persist.
    pub fn apply_command(&mut self, cmd: Command, recepient: Recepient) -> (persist: Settings)
        requires
            old(self).wf(),
        ensures
            final(self).wf(),
            final(self).recepients() == apply_spec(old(self).recepients(), cmd, recepient),
            persist@ == final(self).recepients(),
            final(self).is_loaded() == old(self).is_loaded(),
            final(self).path() == old(self).path(),
    {
        match cmd {
            Command::Subscribe => self.add_recepient(recepient),
            Command::Unsubscribe => self.remove_recepient(recepient),
        }
    }
}

/// The reply that confirms `cmd`.
pub fn reply_text(cmd: Command) -> (r: &'static str)
    ensures
        cmd == Command::Subscribe ==> r@ == "Subscribed!"@,
        cmd == Command::Unsubscribe ==> r@ == "Unsubscribed!"@,
{
    match cmd {
        Command::Subscribe => "Subscribed!",
        Command::Unsubscribe => "Unsubscribed!",
    }
}

/// A post of chat `from` with id `id` goes to its album's queue where it has a
/// media group; `None` means it is forwarded alone, at once.
pub fn album_post(from: i64, id: i32, media_group_id: Option<String>) -> (r: Option<MessageInfo>)
    ensures
        r.is_some() == media_group_id.is_some(),
        r.is_some() ==> r->Some_0.from == from && r->Some_0.id == id && r->Some_0.media_group_id@
            == media_group_id->Some_0@,
{
    match media_group_id {
        Some(g) => Some(MessageInfo::new(from, id, MediaGroupId(g))),
        None => None,
    }
}

} // verus!
