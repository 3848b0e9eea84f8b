//! The dispatcher: the outbound lines produced in reaction to one parsed
//! command.

use vstd::prelude::*;
use crate::parser::Command;
use crate::parser::CommandV;
use crate::speller::SpellCheck;
use crate::speller::notes_spec;
use crate::strutil::split_first;
use crate::strutil::no_char;
use crate::strutil::lemma_split_first_concat;
use crate::strutil::lemma_split_first_none;

verus! {

/// The part of a sender prefix before the first `@`, or the whole prefix
/// when it has no `@`.
pub open spec fn sender_prefix(sender: Seq<char>) -> Seq<char> {
    match split_first(sender, '@') {
        Some(p) => p.0,
        None => sender,
    }
}

/// The PONG reply to a ping from `server`.
pub open spec fn pong_line(server: Seq<char>) -> Seq<char> {
    "PONG "@ + server + "\n"@
}

/// The PRIVMSG reply carrying one correction note to `channel`.
pub open spec fn reply_line(channel: Seq<char>, note_text: Seq<char>) -> Seq<char> {
    "PRIVMSG "@ + channel + " :"@ + note_text + "\n"@
}

/// One PRIVMSG reply per note, in note order.
pub open spec fn reply_lines(channel: Seq<char>, notes: Seq<Seq<char>>) -> Seq<Seq<char>>
    decreases notes.len(),
{
    if notes.len() == 0 {
        Seq::empty()
    } else {
        seq![reply_line(channel, notes[0])] + reply_lines(channel, notes.drop_first())
    }
}

/// The outbound lines for one parsed command: nothing for an unrecognised
/// line; exactly one PONG for a ping; and, for a message whose sender
/// identity — the prefix before the first `@` — matches the watched
/// author (or for any sender when `all_senders` is set), one PRIVMSG
/// reply per correction note of the message text.
pub open spec fn spec_dispatch(
    m: Map<Seq<char>, nat>,
    alpha: Seq<char>,
    watched: Seq<char>,
    all_senders: bool,
    cmd: Option<CommandV>,
) -> Seq<Seq<char>> {
    match cmd {
        None => Seq::empty(),
        Some(CommandV::Ping { server }) => seq![pong_line(server)],
        Some(CommandV::PrivMsg { sender, channel, text }) => {
            if all_senders || sender_prefix(sender) == watched {
                reply_lines(channel, notes_spec(m, alpha, text))
            } else {
                Seq::empty()
            }
        },
    }
}

/// The sender identity: the part of `sender` before the first `@`.
fn sender_identity(sender: &String) -> (r: String)
    ensures
        r@ == sender_prefix(sender@),
{
    let s = sender.as_str();
    let n: usize = s.unicode_len();
    let mut i: usize = 0;
    while i < n
        invariant
            n == s@.len(),
            s@ == sender@,
            i <= n,
            forall|j: int| 0 <= j < i ==> s@[j] != '@',
        decreases n - i,
    {
        if s.get_char(i) == '@' {
            let pre = s.substring_char(0, i);
            proof {
                assert(pre@ =~= s@.take(i as int));
                assert(s@ =~= s@.take(i as int) + seq!['@'] + s@.skip(i as int + 1));
                assert forall|j: int| 0 <= j < s@.take(i as int).len() implies s@.take(
                    i as int,
                )[j] != '@' by {
                    assert(s@.take(i as int)[j] == s@[j]);
                }
                lemma_split_first_concat(s@.take(i as int), s@.skip(i as int + 1), '@');
                assert(split_first(s@, '@') == Some(
                    (s@.take(i as int), s@.skip(i as int + 1)),
                ));
                assert(sender_prefix(s@) == s@.take(i as int));
                assert(s@ == sender@);
            }
            return String::from_str(pre);
        }
        i = i + 1;
    }
    proof {
        assert(no_char(s@, '@'));
        lemma_split_first_none(s@, '@');
    }
    sender.clone()
}

/// Decide the outbound lines for one parsed command.
pub fn dispatch_lines(
    spell: &SpellCheck,
    watched: &String,
    all_senders: bool,
    cmd: Option<Command>,
) -> (r: Vec<String>)
    requires
        spell.wf(),
    ensures
        r.deep_view() == spec_dispatch(
            spell.freq(),
            spell.letters@,
            watched@,
            all_senders,
            match cmd {
                Some(c) => Some(c@),
                None => None,
            },
        ),
{
    match cmd {
        None => {
            let out: Vec<String> = Vec::new();
            proof {
                assert(out.deep_view() =~= Seq::<Seq<char>>::empty());
            }
            out
        },
        Some(Command::PING(p)) => {
            let mut line = String::new();
            line.append("PONG ");
            line.append(p.server.as_str());
            line.append("\n");
            proof {
                assert(line@ =~= pong_line(p.server@));
            }
            let mut out: Vec<String> = Vec::new();
            out.push(line);
            proof {
                assert(out.deep_view() =~= seq![pong_line(p.server@)]);
            }
            out
        },
        Some(Command::PRIVMSG(msg)) => {
            let ident = sender_identity(&msg.sender);
            let matched: bool = all_senders || ident == *watched;
            if matched {
                let notes = spell.correct_notes(&msg.text);
                let ghost nv = notes.deep_view();
                let ghost ch = msg.channel@;
                let mut out: Vec<String> = Vec::new();
                let n: usize = notes.len();
                let mut i: usize = 0;
                proof {
                    assert(nv.skip(0) =~= nv);
                    assert(out.deep_view() + reply_lines(ch, nv) =~= reply_lines(ch, nv));
                }
                while i < n
                    invariant
                        n == notes@.len(),
                        nv == notes.deep_view(),
                        ch == msg.channel@,
                        nv.len() == n,
                        i <= n,
                        out.deep_view() + reply_lines(ch, nv.skip(i as int)) == reply_lines(
                            ch,
                            nv,
                        ),
                    decreases n - i,
                {
                    proof {
                        assert(nv.skip(i as int)[0] == nv[i as int]);
                        assert(nv.skip(i as int).drop_first() =~= nv.skip(i as int + 1));
                        assert(nv[i as int] == notes@[i as int]@);
                    }
                    let mut line = String::new();
                    line.append("PRIVMSG ");
                    line.append(msg.channel.as_str());
                    line.append(" :");
                    line.append(notes[i].as_str());
                    line.append("\n");
                    proof {
                        assert(line@ =~= reply_line(ch, nv[i as int]));
                    }
                    let ghost pre = out.deep_view();
                    out.push(line);
                    proof {
                        assert(out.deep_view() =~= pre.push(reply_line(ch, nv[i as int])));
                        assert(out.deep_view() + reply_lines(ch, nv.skip(i as int + 1)) =~= pre
                            + reply_lines(ch, nv.skip(i as int)));
                    }
                    i = i + 1;
                }
                proof {
                    assert(nv.skip(n as int).len() == 0);
                    assert(out.deep_view() + Seq::<Seq<char>>::empty() =~= out.deep_view());
                }
                out
            } else {
                let out: Vec<String> = Vec::new();
                proof {
                    assert(out.deep_view() =~= Seq::<Seq<char>>::empty());
                }
                out
            }
        },
    }
}

/// PING round trip: a ping is answered by exactly one outbound line,
/// `PONG <server>` with the line terminator, whatever the model and the
/// watched author are.
pub proof fn lemma_ping_round_trip(
    m: Map<Seq<char>, nat>,
    alpha: Seq<char>,
    watched: Seq<char>,
    all_senders: bool,
    server: Seq<char>,
)
    ensures
        spec_dispatch(m, alpha, watched, all_senders, Some(CommandV::Ping { server })) == seq![
            pong_line(server),
        ],
{
}

/// Unknown-command robustness: dispatching no command produces no
/// outbound lines at all.
pub proof fn lemma_no_command_silent(
    m: Map<Seq<char>, nat>,
    alpha: Seq<char>,
    watched: Seq<char>,
    all_senders: bool,
)
    ensures
        spec_dispatch(m, alpha, watched, all_senders, None) == Seq::<Seq<char>>::empty(),
{
}

} // verus!
