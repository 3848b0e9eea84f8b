//! The IRC line parser: one raw protocol line becomes a typed `Command`,
//! or nothing when the line is malformed or unrecognised.

use vstd::prelude::*;
use crate::strutil::split_ch;
use crate::strutil::split_spaces;

verus! {

/// A PRIVMSG event: `"<sender> PRIVMSG <channel> :<text>\r\n"`.
#[derive(PartialEq, Debug)]
pub struct Message {
    pub sender: String,
    pub channel: String,
    pub text: String,
}

/// A PING event: `"PING :<server>\r\n"`.
#[derive(PartialEq, Debug)]
pub struct Ping {
    pub server: String,
}

/// A recognised inbound command.
#[derive(PartialEq, Debug)]
pub enum Command {
    PRIVMSG(Message),
    PING(Ping),
}

/// The mathematical value of a `Command`: its fields as character sequences.
pub enum CommandV {
    PrivMsg { sender: Seq<char>, channel: Seq<char>, text: Seq<char> },
    Ping { server: Seq<char> },
}

impl View for Message {
    type V = CommandV;

    open spec fn view(&self) -> CommandV {
        CommandV::PrivMsg { sender: self.sender@, channel: self.channel@, text: self.text@ }
    }
}

impl View for Ping {
    type V = CommandV;

    open spec fn view(&self) -> CommandV {
        CommandV::Ping { server: self.server@ }
    }
}

impl View for Command {
    type V = CommandV;

    open spec fn view(&self) -> CommandV {
        match self {
            Command::PRIVMSG(m) => m@,
            Command::PING(p) => p@,
        }
    }
}

/// Whether the two-character separator `" :"` starts at position `i` of `s`.
pub open spec fn is_sep_at(s: Seq<char>, i: int) -> bool {
    0 <= i && i + 1 < s.len() && s[i] == ' ' && s[i + 1] == ':'
}

/// How many times the separator `" :"` occurs in `s`.
pub open spec fn count_sep(s: Seq<char>) -> int
    decreases s.len(),
{
    if s.len() < 2 {
        0
    } else {
        (if s[0] == ' ' && s[1] == ':' {
            1int
        } else {
            0int
        }) + count_sep(s.drop_first())
    }
}

/// The position of the first `" :"` separator in `s`, or `-1` if there is none.
pub open spec fn first_sep(s: Seq<char>) -> int
    decreases s.len(),
{
    if s.len() < 2 {
        -1
    } else if s[0] == ' ' && s[1] == ':' {
        0
    } else if first_sep(s.drop_first()) < 0 {
        -1
    } else {
        1 + first_sep(s.drop_first())
    }
}

/// `first_sep` finds exactly the least separator position, when one exists.
pub proof fn lemma_first_sep(s: Seq<char>)
    ensures
        first_sep(s) < 0 ==> forall|i: int| !is_sep_at(s, i),
        first_sep(s) >= 0 ==> is_sep_at(s, first_sep(s)),
        first_sep(s) >= 0 ==> forall|i: int| 0 <= i < first_sep(s) ==> !is_sep_at(s, i),
    decreases s.len(),
{
    if s.len() < 2 {
    } else if s[0] == ' ' && s[1] == ':' {
    } else {
        let t = s.drop_first();
        lemma_first_sep(t);
        assert forall|i: int| 1 <= i && is_sep_at(s, i) implies is_sep_at(t, i - 1) by {
            assert(t[i - 1] == s[i]);
            assert(t[i] == s[i + 1]);
        }
        if first_sep(t) < 0 {
            assert forall|i: int| !is_sep_at(s, i) by {
                if is_sep_at(s, i) {
                    if i == 0 {
                    } else {
                        assert(is_sep_at(t, i - 1));
                    }
                }
            }
        } else {
            let f = 1 + first_sep(t);
            assert(t[f - 1] == s[f]);
            assert(t[f] == s[f + 1]);
            assert(is_sep_at(s, f));
            assert forall|i: int| 0 <= i < f implies !is_sep_at(s, i) by {
                if is_sep_at(s, i) && i >= 1 {
                    assert(is_sep_at(t, i - 1));
                }
            }
        }
    }
}

/// What the parser makes of one raw line, over character sequences.
///
/// The line must contain exactly one `" :"` separator; the part after it
/// must end in the CRLF terminator, which is stripped to give the body.
/// A header of the single token `PING` gives a ping; a header of the shape
/// `<sender> PRIVMSG <channel>` gives a message; anything else, nothing.
pub open spec fn spec_parse(s: Seq<char>) -> Option<CommandV> {
    if count_sep(s) != 1 || first_sep(s) < 0 {
        None
    } else {
        let f = first_sep(s);
        let header = s.take(f);
        let rest = s.skip(f + 2);
        if rest.len() >= 2 && rest[rest.len() - 2] == '\r' && rest[rest.len() - 1] == '\n' {
            let body = rest.take(rest.len() - 2);
            let toks = split_ch(header, ' ');
            if toks.len() == 1 && toks[0] == "PING"@ {
                Some(CommandV::Ping { server: body })
            } else if toks.len() == 3 && toks[1] == "PRIVMSG"@ {
                Some(CommandV::PrivMsg { sender: toks[0], channel: toks[2], text: body })
            } else {
                None
            }
        } else {
            None
        }
    }
}

/// Parse one raw IRC line into a typed command, if it is recognised.
pub fn parse_command(event_str: String) -> (r: Option<Command>)
    ensures
        match r {
            Some(c) => spec_parse(event_str@) == Some(c@),
            None => spec_parse(event_str@) is None,
        },
{
    let s = event_str.as_str();
    let n: usize = s.unicode_len();

    // One pass over the line counts the separators and records the first.
    let mut cnt: usize = 0;
    let mut first: usize = 0;
    let mut i: usize = 0;
    proof {
        assert(s@.skip(0) =~= s@);
    }
    while n >= 2 && i < n - 1
        invariant
            n == s@.len(),
            i <= n,
            cnt <= i,
            cnt as int + count_sep(s@.skip(i as int)) == count_sep(s@),
            cnt == 0 ==> forall|j: int| 0 <= j < i ==> !is_sep_at(s@, j),
            cnt > 0 ==> is_sep_at(s@, first as int) && (first as int) < i
                && (forall|j: int| 0 <= j < first ==> !is_sep_at(s@, j)),
        decreases n - i,
    {
        proof {
            assert(s@.skip(i as int).len() == n - i);
            assert(s@.skip(i as int)[0] == s@[i as int]);
            assert(s@.skip(i as int)[1] == s@[i as int + 1]);
            assert(s@.skip(i as int).drop_first() =~= s@.skip(i as int + 1));
        }
        let a = s.get_char(i);
        let b = s.get_char(i + 1);
        if a == ' ' && b == ':' {
            if cnt == 0 {
                first = i;
            }
            cnt = cnt + 1;
        }
        i = i + 1;
    }
    proof {
        assert(s@.skip(i as int).len() < 2);
        assert(count_sep(s@.skip(i as int)) == 0);
        lemma_first_sep(s@);
    }

    if cnt != 1 {
        return None;
    }
    proof {
        // The recorded position is the least separator, so it is `first_sep`.
        let fs = first_sep(s@);
        let fi = first as int;
        assert(fs >= 0);
        if fs < fi {
            assert(is_sep_at(s@, fs));
            assert(false);
        }
        if fi < fs {
            assert(is_sep_at(s@, fi));
            assert(false);
        }
        assert(fs == fi);
    }
    let f: usize = first;

    let rest = s.substring_char(f + 2, n);
    let rest_len: usize = n - f - 2;
    proof {
        assert(rest@ =~= s@.skip(f as int + 2));
    }
    if rest_len < 2 {
        return None;
    }
    let r1 = rest.get_char(rest_len - 2);
    let r2 = rest.get_char(rest_len - 1);
    if !(r1 == '\r' && r2 == '\n') {
        return None;
    }
    let body = rest.substring_char(0, rest_len - 2);
    proof {
        assert(body@ =~= s@.skip(f as int + 2).take(rest_len as int - 2));
    }

    let header = s.substring_char(0, f);
    proof {
        assert(header@ =~= s@.take(f as int));
    }
    let toks = split_spaces(header);
    proof {
        assert(toks.deep_view() == split_ch(s@.take(f as int), ' '));
    }

    let ping_kw = String::from_str("PING");
    let privmsg_kw = String::from_str("PRIVMSG");
    if toks.len() == 1 && toks[0] == ping_kw {
        proof {
            assert(toks.deep_view()[0] == toks@[0]@);
        }
        Some(Command::PING(Ping { server: String::from_str(body) }))
    } else if toks.len() == 3 && toks[1] == privmsg_kw {
        proof {
            assert(toks.deep_view()[0] == toks@[0]@);
            assert(toks.deep_view()[1] == toks@[1]@);
            assert(toks.deep_view()[2] == toks@[2]@);
        }
        let sender = toks[0].clone();
        let channel = toks[2].clone();
        Some(Command::PRIVMSG(Message { sender, channel, text: String::from_str(body) }))
    } else {
        None
    }
}

/// A line with no CRLF terminator, or with a separator count other than
/// one, is never parsed into a command.
pub proof fn lemma_parse_rejects_malformed(s: Seq<char>)
    ensures
        count_sep(s) != 1 ==> spec_parse(s) is None,
        s.len() < 2 || s[s.len() - 2] != '\r' || s[s.len() - 1] != '\n' ==> spec_parse(s) is None,
{
    lemma_first_sep(s);
    if count_sep(s) == 1 && first_sep(s) >= 0 {
        let f = first_sep(s);
        let rest = s.skip(f + 2);
        if rest.len() >= 2 {
            assert(rest[rest.len() - 2] == s[s.len() - 2]);
            assert(rest[rest.len() - 1] == s[s.len() - 1]);
        }
    }
}

} // verus!
