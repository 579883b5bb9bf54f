//! Playing through files: each turn is written out, and the reply is read from a file as soon as
//! somebody has put one there.

use crate::protocol::{role_at_slot, slot_role, Hand, Role};
use crate::text::{same_text, trim, trimmed};
use vstd::prelude::*;
use vstd::string::*;

verus! {

/// Where the files lie and how many turns were written.
#[derive(Debug)]
pub struct FileBridge {
    pub dir: String,
    pub seq: u64,
}

impl FileBridge {
    /// A bridge in the directory `bridge` that has written no turn.
    pub fn new() -> (res: FileBridge)
        ensures
            res.dir@ == "bridge"@,
            res.seq == 0,
    {
        FileBridge { dir: "bridge".to_owned(), seq: 0 }
    }

    /// Counts the turn that is written next, and gives its number.
    pub fn next_turn(&mut self) -> (res: u64)
        requires
            old(self).seq < u64::MAX,
        ensures
            final(self).seq == old(self).seq + 1,
            final(self).dir == old(self).dir,
            res == final(self).seq,
    {
        self.seq += 1;
        self.seq
    }

    /// The name of the strategy.
    pub fn name(&self) -> (res: &'static str)
        ensures
            res@ == "bridge"@,
    {
        "bridge"
    }
}

impl Default for FileBridge {
    fn default() -> (res: FileBridge)
        ensures
            res.dir@ == "bridge"@,
            res.seq == 0,
    {
        FileBridge::new()
    }
}

/// What the reply file says.
#[derive(Debug)]
pub enum Reply {
    /// Nothing yet.
    Pending,
    Resign,
    Move(String),
}

/// Whether a reply is what the text of the file means.
pub open spec fn reply_is(reply: Reply, text: Seq<char>) -> bool {
    let said = trimmed(text);
    match reply {
        Reply::Pending => said.len() == 0,
        Reply::Resign => said == "resign"@,
        Reply::Move(usi) => said.len() != 0 && said != "resign"@ && usi@ == said,
    }
}

/// Reads the text of the reply file: white space around it does not count, and an empty file is
/// one that is still being written.
pub fn read_reply(text: &str) -> (res: Reply)
    ensures
        reply_is(res, text@),
{
    let said = trim(text);
    if said.as_str().unicode_len() == 0 {
        return Reply::Pending;
    }
    if same_text(said.as_str(), "resign") {
        return Reply::Resign;
    }
    Reply::Move(said)
}

/// The pieces in a hand of which there is at least one, in the order of the hand.
pub open spec fn held(counts: Seq<u32>) -> Seq<(Role, u32)> {
    Seq::new(7, |i: int| (role_at_slot(i), counts[i])).filter(|x: (Role, u32)| x.1 > 0)
}

/// The pieces in a hand of which there is at least one.
pub fn hand_list(hand: &Hand) -> (res: Vec<(Role, u32)>)
    ensures
        res@ == held(hand@),
{
    let ghost all = Seq::new(7, |i: int| (role_at_slot(i), hand@[i]));
    let ghost some = |x: (Role, u32)| x.1 > 0;
    let mut out: Vec<(Role, u32)> = Vec::new();
    let mut i: usize = 0;
    assert(all.take(0).filter(some) =~= Seq::<(Role, u32)>::empty()) by {
        reveal(Seq::filter);
    }
    while i < 7
        invariant
            i <= 7,
            all == Seq::new(7, |i: int| (role_at_slot(i), hand@[i])),
            some == (|x: (Role, u32)| x.1 > 0),
            out@ == all.take(i as int).filter(some),
        decreases 7 - i,
    {
        let entry = (slot_role(i), hand.counts[i]);
        proof {
            assert(all.take(i + 1) =~= all.take(i as int).push(entry));
            all.take(i as int).lemma_filter_push(entry, some);
        }
        if entry.1 > 0 {
            out.push(entry);
        }
        i += 1;
    }
    assert(all.take(7) =~= all);
    out
}

/// The hand is listed by role: a role stands there exactly where some of it is held, with the number
/// held.
pub proof fn law_hand_is_listed(counts: Seq<u32>, role: Role, n: u32)
    requires
        counts.len() == 7,
    ensures
        held(counts).contains((role, n)) <==> n > 0 && (match role {
            Role::Pawn => counts[0] == n,
            Role::Lance => counts[1] == n,
            Role::Knight => counts[2] == n,
            Role::Silver => counts[3] == n,
            Role::Gold => counts[4] == n,
            Role::Bishop => counts[5] == n,
            Role::Rook => counts[6] == n,
            _ => false,
        }),
{
    let all = Seq::new(7, |i: int| (role_at_slot(i), counts[i]));
    let some = |x: (Role, u32)| x.1 > 0;
    crate::lists::lemma_filter_contains_iff(all, some, (role, n));
    assert(all[0] == (Role::Pawn, counts[0]));
    assert(all[1] == (Role::Lance, counts[1]));
    assert(all[2] == (Role::Knight, counts[2]));
    assert(all[3] == (Role::Silver, counts[3]));
    assert(all[4] == (Role::Gold, counts[4]));
    assert(all[5] == (Role::Bishop, counts[5]));
    assert(all[6] == (Role::Rook, counts[6]));
    if all.contains((role, n)) {
        let i = choose|i: int| 0 <= i < 7 && all[i] == (role, n);
        assert(i == 0 || i == 1 || i == 2 || i == 3 || i == 4 || i == 5 || i == 6);
    }
}

/// White space around a reply says nothing: a reply stands for the same as the reply without it, and
/// what is left without any text is no reply yet.
pub proof fn law_reply_ignores_white_space(reply: Reply, text: Seq<char>)
    ensures
        reply_is(reply, text) <==> reply_is(reply, trimmed(text)),
        (forall|i: int| 0 <= i < text.len() ==> crate::text::is_white(#[trigger] text[i])) ==> (
        reply_is(reply, text) <==> reply is Pending),
{
    crate::text::law_trimmed(text);
    crate::text::law_trimmed(trimmed(text));
    if forall|i: int| 0 <= i < text.len() ==> crate::text::is_white(#[trigger] text[i]) {
        assert(trimmed(text).len() == 0);
        reveal_strlit("resign");
    }
}

} // verus!
