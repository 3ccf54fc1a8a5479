//! Reading chat messages as store commands: `!set`, `!add` and `!unset`.

use vstd::prelude::*;
use vstd::string::StrSliceExecFns;
use crate::text::{free_of, is_space, split_on, split_seq, string_of, chars_of, lemma_split_len};

verus! {

/// What a message asks of the store.
pub enum Command {
    /// Replace the replies of a user.
    SetReplies { username: String, replies: Vec<String> },
    /// Append replies to those of a user.
    AddReplies { username: String, replies: Vec<String> },
    /// Forget a user.
    Unset { username: String },
    /// A command whose arguments could not be read; it is ignored without a word.
    Dropped,
    /// Not a command: an ordinary message, answered by lookup of its author.
    Message,
}

/// A command as plain sequences.
pub enum CommandView {
    SetReplies(Seq<char>, Seq<Seq<char>>),
    AddReplies(Seq<char>, Seq<Seq<char>>),
    Unset(Seq<char>),
    Dropped,
    Message,
}

impl Command {
    pub open spec fn view(&self) -> CommandView {
        match self {
            Command::SetReplies { username, replies } => CommandView::SetReplies(username@, replies.deep_view()),
            Command::AddReplies { username, replies } => CommandView::AddReplies(username@, replies.deep_view()),
            Command::Unset { username } => CommandView::Unset(username@),
            Command::Dropped => CommandView::Dropped,
            Command::Message => CommandView::Message,
        }
    }
}

pub open spec fn set_prefix() -> Seq<char> {
    seq!['!', 's', 'e', 't', ' ']
}

pub open spec fn add_prefix() -> Seq<char> {
    seq!['!', 'a', 'd', 'd', ' ']
}

pub open spec fn unset_prefix() -> Seq<char> {
    seq!['!', 'u', 'n', 's', 'e', 't']
}

pub open spec fn starts_with(t: Seq<char>, p: Seq<char>) -> bool {
    p.len() <= t.len() && t.subrange(0, p.len() as int) == p
}

pub open spec fn is_first_space(s: Seq<char>, w: int) -> bool {
    &&& 0 <= w < s.len()
    &&& is_space(s[w])
    &&& forall|j: int| 0 <= j < w ==> !is_space(s[j])
}

/// The arguments of `!set` and `!add`: with a `|` in them, the fields between
/// the bars (username first); else the username before the first whitespace
/// and one reply, all that follows it; with neither, nothing.
pub open spec fn args_of(arg: Seq<char>) -> Option<(Seq<char>, Seq<Seq<char>>)> {
    if !free_of(arg, '|') {
        let f = split_seq(arg, '|');
        Some((f[0], f.drop_first()))
    } else if exists|w: int| is_first_space(arg, w) {
        let w = choose|w: int| is_first_space(arg, w);
        Some((arg.subrange(0, w), seq![arg.subrange(w + 1, arg.len() as int)]))
    } else {
        None
    }
}

pub open spec fn trim_start(s: Seq<char>) -> Seq<char>
    decreases s.len(),
{
    if s.len() > 0 && is_space(s[0]) {
        trim_start(s.drop_first())
    } else {
        s
    }
}

pub open spec fn trim_end(s: Seq<char>) -> Seq<char>
    decreases s.len(),
{
    if s.len() > 0 && is_space(s.last()) {
        trim_end(s.drop_last())
    } else {
        s
    }
}

/// `s` without whitespace at either end.
pub open spec fn trim(s: Seq<char>) -> Seq<char> {
    trim_end(trim_start(s))
}

/// What a message's text asks for.
pub open spec fn command_of(t: Seq<char>) -> CommandView {
    if starts_with(t, set_prefix()) {
        match args_of(t.subrange(5, t.len() as int)) {
            Some(a) => CommandView::SetReplies(a.0, a.1),
            None => CommandView::Dropped,
        }
    } else if starts_with(t, add_prefix()) {
        match args_of(t.subrange(5, t.len() as int)) {
            Some(a) => CommandView::AddReplies(a.0, a.1),
            None => CommandView::Dropped,
        }
    } else if starts_with(t, unset_prefix()) {
        let u = trim(t.subrange(6, t.len() as int));
        if u.len() == 0 {
            CommandView::Dropped
        } else {
            CommandView::Unset(u)
        }
    } else {
        CommandView::Message
    }
}

fn is_space_char(c: char) -> (r: bool)
    ensures
        r == is_space(c),
{
    c == ' ' || c == '\t' || c == '\n' || c == '\r' || c == '\x0B' || c == '\x0C'
}

fn has_prefix(cs: &Vec<char>, p: &Vec<char>) -> (r: bool)
    ensures
        r == starts_with(cs@, p@),
{
    if p.len() > cs.len() {
        return false;
    }
    let mut i: usize = 0;
    while i < p.len()
        invariant
            p@.len() <= cs@.len(),
            i <= p@.len(),
            forall|j: int| 0 <= j < i ==> cs@[j] == p@[j],
        decreases p.len() - i,
    {
        if cs[i] != p[i] {
            assert(cs@.subrange(0, p@.len() as int)[i as int] != p@[i as int]);
            return false;
        }
        i = i + 1;
    }
    assert(cs@.subrange(0, p@.len() as int) =~= p@);
    true
}

/// The fields of a `!set` or `!add` argument, as `args_of` describes them.
pub fn parse_args(arg: &str) -> (r: Option<(String, Vec<String>)>)
    ensures
        match r {
            Some(v) => args_of(arg@) == Some((v.0@, v.1.deep_view())),
            None => args_of(arg@) is None,
        },
{
    let cs = chars_of(arg);
    let mut i: usize = 0;
    let mut bar = false;
    while i < cs.len()
        invariant
            cs@ == arg@,
            i <= cs@.len(),
            bar <==> !free_of(cs@.subrange(0, i as int), '|'),
        decreases cs.len() - i,
    {
        if cs[i] == '|' {
            bar = true;
            assert(cs@.subrange(0, i + 1)[i as int] == '|');
        } else {
            assert(free_of(cs@.subrange(0, i as int), '|') ==> free_of(cs@.subrange(0, i + 1), '|'))
                by {
                if free_of(cs@.subrange(0, i as int), '|') {
                    assert forall|j: int| 0 <= j < i + 1 implies #[trigger] cs@.subrange(0, i + 1)[j] != '|' by {
                        if j < i {
                            assert(cs@.subrange(0, i as int)[j] == cs@.subrange(0, i + 1)[j]);
                        }
                    }
                }
            }
            assert(!free_of(cs@.subrange(0, i as int), '|') ==> !free_of(cs@.subrange(0, i + 1), '|'))
                by {
                if !free_of(cs@.subrange(0, i as int), '|') {
                    let j = choose|j: int| 0 <= j < i && cs@.subrange(0, i as int)[j] == '|';
                    assert(cs@.subrange(0, i + 1)[j] == '|');
                }
            }
        }
        i = i + 1;
    }
    assert(cs@.subrange(0, cs@.len() as int) =~= cs@);
    if bar {
        let mut fields = split_on(arg, '|');
        proof {
            lemma_split_len(arg@, '|');
        }
        let ghost all = fields.deep_view();
        let username = fields.remove(0);
        assert(fields.deep_view() =~= all.drop_first());
        return Some((username, fields));
    }
    let mut w: usize = 0;
    while w < cs.len()
        invariant
            cs@ == arg@,
            free_of(arg@, '|'),
            w <= cs@.len(),
            forall|j: int| 0 <= j < w ==> !is_space(cs@[j]),
        decreases cs.len() - w,
    {
        if is_space_char(cs[w]) {
            let username = string_of(&cs, 0, w);
            let reply = string_of(&cs, w + 1, cs.len());
            let replies = vec![reply];
            proof {
                assert(is_first_space(arg@, w as int));
                let c = choose|v: int| is_first_space(arg@, v);
                assert(c == w as int);
                assert(replies.deep_view() =~= seq![arg@.subrange(w + 1, arg@.len() as int)]);
            }
            return Some((username, replies));
        }
        w = w + 1;
    }
    None
}

/// `cs[from..]` without whitespace at either end.
fn trim_from(cs: &Vec<char>, from: usize) -> (r: String)
    requires
        from <= cs@.len(),
    ensures
        r@ == trim(cs@.subrange(from as int, cs@.len() as int)),
{
    let n = cs.len();
    let mut a: usize = from;
    while a < n && is_space_char(cs[a])
        invariant
            n == cs@.len(),
            from <= a <= n,
            trim_start(cs@.subrange(from as int, n as int)) == trim_start(cs@.subrange(a as int, n as int)),
        decreases n - a,
    {
        assert(cs@.subrange(a as int, n as int).drop_first() =~= cs@.subrange(a + 1, n as int));
        a = a + 1;
    }
    assert(trim_start(cs@.subrange(a as int, n as int)) == cs@.subrange(a as int, n as int));
    let mut b: usize = n;
    while b > a && is_space_char(cs[b - 1])
        invariant
            n == cs@.len(),
            a <= b <= n,
            trim_end(cs@.subrange(a as int, n as int)) == trim_end(cs@.subrange(a as int, b as int)),
        decreases b - a,
    {
        assert(cs@.subrange(a as int, b as int).drop_last() =~= cs@.subrange(a as int, b - 1));
        b = b - 1;
    }
    assert(trim_end(cs@.subrange(a as int, b as int)) == cs@.subrange(a as int, b as int));
    string_of(cs, a, b)
}

/// Reads a message's text as a command, as `command_of` describes it.
pub fn parse_command(text: &str) -> (r: Command)
    ensures
        r.view() == command_of(text@),
{
    let cs = chars_of(text);
    let n = cs.len();
    if has_prefix(&cs, &vec!['!', 's', 'e', 't', ' ']) {
        let arg = string_of(&cs, 5, n);
        match parse_args(arg.as_str()) {
            Some((username, replies)) => Command::SetReplies { username, replies },
            None => Command::Dropped,
        }
    } else if has_prefix(&cs, &vec!['!', 'a', 'd', 'd', ' ']) {
        let arg = string_of(&cs, 5, n);
        match parse_args(arg.as_str()) {
            Some((username, replies)) => Command::AddReplies { username, replies },
            None => Command::Dropped,
        }
    } else if has_prefix(&cs, &vec!['!', 'u', 'n', 's', 'e', 't']) {
        let username = trim_from(&cs, 6);
        if username.as_str().unicode_len() == 0 {
            Command::Dropped
        } else {
            Command::Unset { username }
        }
    } else {
        Command::Message
    }
}

} // verus!
