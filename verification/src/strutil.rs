//! String-splitting helpers shared by the parser, the session formatter
//! and the spelling corrector, with their specification-level models.

use vstd::prelude::*;

verus! {

/// Whitespace characters recognised by the tokenizer.
pub open spec fn is_ws(c: char) -> bool {
    c == ' ' || c == '\t' || c == '\r' || c == '\n'
}

/// Splitting on a separator character, keeping empty pieces.
/// `cur` accumulates the piece under construction.
pub open spec fn split_ch_acc(s: Seq<char>, c: char, cur: Seq<char>) -> Seq<Seq<char>>
    decreases s.len(),
{
    if s.len() == 0 {
        seq![cur]
    } else if s[0] == c {
        seq![cur] + split_ch_acc(s.drop_first(), c, Seq::empty())
    } else {
        split_ch_acc(s.drop_first(), c, cur.push(s[0]))
    }
}

/// All pieces of `s` between occurrences of `c`, empty pieces kept.
pub open spec fn split_ch(s: Seq<char>, c: char) -> Seq<Seq<char>> {
    split_ch_acc(s, c, Seq::empty())
}

/// Whitespace tokenization, empty tokens dropped.
pub open spec fn toks_acc(s: Seq<char>, cur: Seq<char>) -> Seq<Seq<char>>
    decreases s.len(),
{
    if s.len() == 0 {
        if cur.len() > 0 {
            seq![cur]
        } else {
            Seq::empty()
        }
    } else if is_ws(s[0]) {
        (if cur.len() > 0 {
            seq![cur]
        } else {
            Seq::empty()
        }) + toks_acc(s.drop_first(), Seq::empty())
    } else {
        toks_acc(s.drop_first(), cur.push(s[0]))
    }
}

/// The whitespace-separated tokens of `s`, in order.
pub open spec fn tokens_ws(s: Seq<char>) -> Seq<Seq<char>> {
    toks_acc(s, Seq::empty())
}

/// `c` occurs nowhere in `s`.
pub open spec fn no_char(s: Seq<char>, c: char) -> bool {
    forall|i: int| 0 <= i < s.len() ==> s[i] != c
}

/// Split at the first occurrence of `c`: the part before and the part
/// after, or nothing when `c` does not occur.
pub open spec fn split_first(s: Seq<char>, c: char) -> Option<(Seq<char>, Seq<char>)>
    decreases s.len(),
{
    if s.len() == 0 {
        None
    } else if s[0] == c {
        Some((Seq::empty(), s.drop_first()))
    } else {
        match split_first(s.drop_first(), c) {
            None => None,
            Some(p) => Some((seq![s[0]] + p.0, p.1)),
        }
    }
}

/// Splitting `a + [c] + b` at the first `c` gives back `a` and `b`,
/// whenever `a` itself is clear of `c`.
pub proof fn lemma_split_first_concat(a: Seq<char>, b: Seq<char>, c: char)
    requires
        no_char(a, c),
    ensures
        split_first(a + seq![c] + b, c) == Some((a, b)),
    decreases a.len(),
{
    let s = a + seq![c] + b;
    if a.len() == 0 {
        assert(s[0] == c);
        assert(s.drop_first() =~= b);
        assert(Seq::<char>::empty() =~= a);
    } else {
        assert(s[0] == a[0]);
        assert(a[0] != c);
        assert(s.drop_first() =~= a.drop_first() + seq![c] + b);
        assert forall|i: int| 0 <= i < a.drop_first().len() implies a.drop_first()[i] != c by {
            assert(a.drop_first()[i] == a[i + 1]);
        }
        lemma_split_first_concat(a.drop_first(), b, c);
        assert(split_first(s, c) == Some((seq![s[0]] + a.drop_first(), b)));
        assert(seq![a[0]] + a.drop_first() =~= a);
    }
}

/// When `c` does not occur in `s`, there is no split.
pub proof fn lemma_split_first_none(s: Seq<char>, c: char)
    requires
        no_char(s, c),
    ensures
        split_first(s, c) is None,
    decreases s.len(),
{
    if s.len() == 0 {
    } else {
        assert(s[0] != c);
        assert forall|i: int| 0 <= i < s.drop_first().len() implies s.drop_first()[i] != c by {
            assert(s.drop_first()[i] == s[i + 1]);
        }
        lemma_split_first_none(s.drop_first(), c);
    }
}

/// Split `s` on every occurrence of the space character, keeping empty pieces.
pub fn split_spaces(s: &str) -> (r: Vec<String>)
    ensures
        r.deep_view() == split_ch(s@, ' '),
{
    let n: usize = s.unicode_len();
    let mut out: Vec<String> = Vec::new();
    let mut cur = String::new();
    let mut i: usize = 0;
    proof {
        assert(out.deep_view() =~= Seq::<Seq<char>>::empty());
        assert(s@.skip(0) =~= s@);
        assert(out.deep_view() + split_ch_acc(s@, ' ', cur@) =~= split_ch_acc(s@, ' ', cur@));
    }
    while i < n
        invariant
            n == s@.len(),
            i <= n,
            out.deep_view() + split_ch_acc(s@.skip(i as int), ' ', cur@) == split_ch(s@, ' '),
        decreases n - i,
    {
        proof {
            assert(s@.skip(i as int).len() == n - i);
            assert(s@.skip(i as int)[0] == s@[i as int]);
            assert(s@.skip(i as int).drop_first() =~= s@.skip(i as int + 1));
        }
        let c = s.get_char(i);
        if c == ' ' {
            let ghost old_out = out.deep_view();
            let ghost old_cur = cur@;
            out.push(cur);
            cur = String::new();
            proof {
                assert(out.deep_view() =~= old_out.push(old_cur));
                assert(out.deep_view() + split_ch_acc(s@.skip(i as int + 1), ' ', cur@) =~= (
                old_out + split_ch_acc(s@.skip(i as int), ' ', old_cur)));
            }
        } else {
            let ghost old_cur = cur@;
            let piece = s.substring_char(i, i + 1);
            cur.append(piece);
            proof {
                assert(cur@ =~= old_cur.push(s@[i as int]));
            }
        }
        i = i + 1;
    }
    proof {
        assert(s@.skip(n as int).len() == 0);
    }
    let ghost old_out = out.deep_view();
    let ghost old_cur = cur@;
    out.push(cur);
    proof {
        assert(out.deep_view() =~= old_out.push(old_cur));
        assert(out.deep_view() =~= old_out + seq![old_cur]);
    }
    out
}

} // verus!
