//! Session identity: the registration record and the line-protocol
//! formatting of the registration and join commands.

use vstd::prelude::*;
use crate::strutil::split_first;
use crate::strutil::no_char;
use crate::strutil::lemma_split_first_concat;

verus! {

/// The display name of the connection.
pub struct Nick {
    pub nick: String,
}

/// The four positional fields of the USER command.
pub struct User {
    pub user: String,
    pub mode: String,
    pub unused: String,
    pub realname: String,
}

/// The immutable per-connection identity sent once at connection start.
pub struct Registration {
    pub user: User,
    pub nick: Nick,
}

/// The registration text: the USER line and the NICK line.
pub open spec fn reg_line(
    u: Seq<char>,
    m: Seq<char>,
    un: Seq<char>,
    rn: Seq<char>,
    n: Seq<char>,
) -> Seq<char> {
    "USER "@ + u + " "@ + m + " "@ + un + " "@ + rn + "\nNICK "@ + n + "\n"@
}

impl Registration {
    /// The fixed identity used by the bot.
    pub fn new() -> (r: Registration)
        ensures
            r.user.user@ == "guest"@,
            r.user.mode@ == "tolmoon"@,
            r.user.unused@ == "tolsun"@,
            r.user.realname@ == ":Ronnie Regan"@,
            r.nick.nick@ == "raistlin"@,
    {
        let u = User {
            user: String::from_str("guest"),
            mode: String::from_str("tolmoon"),
            unused: String::from_str("tolsun"),
            realname: String::from_str(":Ronnie Regan"),
        };
        let n = Nick { nick: String::from_str("raistlin") };
        Registration { user: u, nick: n }
    }

    /// The registration text sent at connection start:
    /// `USER <user> <mode> <unused> <realname>\nNICK <nick>\n`.
    pub fn create_registration_str(&self) -> (r: String)
        ensures
            r@ == reg_line(
                self.user.user@,
                self.user.mode@,
                self.user.unused@,
                self.user.realname@,
                self.nick.nick@,
            ),
    {
        let mut t = String::new();
        t.append("USER ");
        t.append(self.user.user.as_str());
        t.append(" ");
        t.append(self.user.mode.as_str());
        t.append(" ");
        t.append(self.user.unused.as_str());
        t.append(" ");
        t.append(self.user.realname.as_str());
        t.append("\nNICK ");
        t.append(self.nick.nick.as_str());
        t.append("\n");
        proof {
            assert(t@ =~= reg_line(
                self.user.user@,
                self.user.mode@,
                self.user.unused@,
                self.user.realname@,
                self.nick.nick@,
            ));
        }
        t
    }
}

/// The join text for one channel: `JOIN <channel>\n`.
pub fn join_line(channel: &str) -> (r: String)
    ensures
        r@ == "JOIN "@ + channel@ + "\n"@,
{
    let mut t = String::new();
    t.append("JOIN ");
    t.append(channel);
    t.append("\n");
    proof {
        assert(t@ =~= "JOIN "@ + channel@ + "\n"@);
    }
    t
}

/// Reading the registration text back by its documented separators: the
/// two newline-terminated lines; on the first, the `USER` keyword and its
/// first three space-separated fields, the realname being the remainder;
/// on the second, the `NICK` keyword and the nick as the remainder.
pub open spec fn parse_reg_line(line: Seq<char>) -> Option<
    (Seq<char>, Seq<char>, Seq<char>, Seq<char>, Seq<char>),
> {
    match split_first(line, '\n') {
        None => None,
        Some((l1, rest1)) => match split_first(rest1, '\n') {
            None => None,
            Some((l2, tail)) => if tail.len() != 0 {
                None
            } else {
                match split_first(l1, ' ') {
                    None => None,
                    Some((k1, r1)) => if k1 != "USER"@ {
                        None
                    } else {
                        match split_first(r1, ' ') {
                            None => None,
                            Some((u, r2)) => match split_first(r2, ' ') {
                                None => None,
                                Some((m, r3)) => match split_first(r3, ' ') {
                                    None => None,
                                    Some((un, rn)) => match split_first(l2, ' ') {
                                        None => None,
                                        Some((k2, nk)) => if k2 != "NICK"@ {
                                            None
                                        } else {
                                            Some((u, m, un, rn, nk))
                                        },
                                    },
                                },
                            },
                        }
                    },
                }
            },
        },
    }
}

/// Round trip of registration formatting: re-splitting the registration
/// text on its documented separators recovers the original field values
/// exactly, whenever the fields stay clear of those separators — no
/// newline in any field, and no space in the first three USER fields.
pub proof fn lemma_registration_round_trip(
    u: Seq<char>,
    m: Seq<char>,
    un: Seq<char>,
    rn: Seq<char>,
    n: Seq<char>,
)
    requires
        no_char(u, ' '),
        no_char(u, '\n'),
        no_char(m, ' '),
        no_char(m, '\n'),
        no_char(un, ' '),
        no_char(un, '\n'),
        no_char(rn, '\n'),
        no_char(n, '\n'),
    ensures
        parse_reg_line(reg_line(u, m, un, rn, n)) == Some((u, m, un, rn, n)),
{
    reveal_strlit("USER ");
    reveal_strlit("USER");
    reveal_strlit("NICK ");
    reveal_strlit("NICK");
    reveal_strlit("\nNICK ");
    reveal_strlit("\n");
    reveal_strlit(" ");
    let line = reg_line(u, m, un, rn, n);
    let l1 = "USER"@ + seq![' '] + (u + seq![' '] + (m + seq![' '] + (un + seq![' '] + rn)));
    let l2 = "NICK"@ + seq![' '] + n;

    assert(line =~= l1 + seq!['\n'] + (l2 + seq!['\n'] + Seq::<char>::empty()));
    assert(no_char(l1, '\n')) by {
        assert(forall|i: int| 0 <= i < 4 ==> "USER"@[i] != '\n');
    }
    lemma_split_first_concat(l1, l2 + seq!['\n'] + Seq::<char>::empty(), '\n');
    assert(split_first(line, '\n') == Some((l1, l2 + seq!['\n'] + Seq::<char>::empty())));

    assert(no_char(l2, '\n')) by {
        assert(forall|i: int| 0 <= i < 4 ==> "NICK"@[i] != '\n');
    }
    lemma_split_first_concat(l2, Seq::<char>::empty(), '\n');

    assert(no_char("USER"@, ' ')) by {
        assert(forall|i: int| 0 <= i < 4 ==> "USER"@[i] != ' ');
    }
    lemma_split_first_concat(
        "USER"@,
        u + seq![' '] + (m + seq![' '] + (un + seq![' '] + rn)),
        ' ',
    );
    lemma_split_first_concat(u, m + seq![' '] + (un + seq![' '] + rn), ' ');
    lemma_split_first_concat(m, un + seq![' '] + rn, ' ');
    lemma_split_first_concat(un, rn, ' ');

    assert(no_char("NICK"@, ' ')) by {
        assert(forall|i: int| 0 <= i < 4 ==> "NICK"@[i] != ' ');
    }
    lemma_split_first_concat("NICK"@, n, ' ');
}

} // verus!
