//! The declarative variant: a YAML document lists users with an optional
//! reaction emoji, an optional reply and the percentage of messages it answers.

use vstd::prelude::*;
use crate::select::draw_below;
use crate::store::{lowercase, lower_of};
use crate::text::string_of;
use crate::yaml::{field, int_field, int_of, nesting_fits, load_docs, text_field, text_of, views_of, yaml_docs_of, YamlValue, YamlView};

verus! {

/// Why a configuration document was refused.
#[derive(Debug, PartialEq, Eq, Structural)]
pub enum ConfigError {
    /// The text is not YAML.
    Malformed,
    /// The first document has no `users` list.
    MissingUsers,
    /// A line opens with more indentation and block indicators than the reader accepts.
    TooDeep,
}

/// A reply and the percentage of messages it answers.
pub struct Reply {
    pub message: String,
    pub percent: i64,
}

/// A reaction emoji, as a literal or a custom-emoji reference.
pub struct React {
    pub emoji: String,
}

/// What the bot does on a message by one user.
pub struct Actions {
    pub reaction: Option<React>,
    pub reply: Option<Reply>,
}

/// Reaction emoji and reply with its percentage, as plain values.
pub type ActionsView = (Option<Seq<char>>, Option<(Seq<char>, i64)>);

impl Actions {
    pub open spec fn view(&self) -> ActionsView {
        (
            match self.reaction {
                Some(r) => Some(r.emoji@),
                None => None,
            },
            match self.reply {
                Some(r) => Some((r.message@, r.percent)),
                None => None,
            },
        )
    }

    pub fn copy(&self) -> (r: Actions)
        ensures
            r.view() == self.view(),
    {
        let reaction = match &self.reaction {
            Some(r) => Some(React { emoji: r.emoji.clone() }),
            None => None,
        };
        let reply = match &self.reply {
            Some(r) => Some(Reply { message: r.message.clone(), percent: r.percent }),
            None => None,
        };
        Actions { reaction, reply }
    }

    /// The reply for a random draw in `0..100`: given only when the draw is below the
    /// percentage.
    pub fn message_for_draw(&self, draw: u64) -> (r: Option<String>)
        ensures
            r matches Some(s) ==> self.view().1 matches Some(p) && s@ == p.0,
            r is Some <==> (self.view().1 matches Some(p) && (draw as int) < p.1),
    {
        match &self.reply {
            Some(reply) => {
                if reply.percent > 0 && draw < reply.percent as u64 {
                    Some(reply.message.clone())
                } else {
                    None
                }
            },
            None => None,
        }
    }

    /// The reply to send, if the draw lets it through: never at a percentage of 0 or
    /// less, always at 100 or more.
    pub fn get_message(&self) -> (r: Option<String>)
        ensures
            r matches Some(s) ==> self.view().1 matches Some(p) && s@ == p.0,
            self.view().1 is None ==> r is None,
            self.view().1 matches Some(p) && p.1 <= 0 ==> r is None,
            self.view().1 matches Some(p) && p.1 >= 100 ==> r is Some,
    {
        let draw = draw_below(100);
        self.message_for_draw(draw)
    }

    /// The reaction to put on the message, if any; it does not depend on the reply's draw.
    pub fn get_reaction(&self) -> (r: Option<String>)
        ensures
            match r {
                Some(s) => self.view().0 == Some(s@),
                None => self.view().0 is None,
            },
    {
        match &self.reaction {
            Some(react) => Some(react.emoji.clone()),
            None => None,
        }
    }
}

/// One user of the document, as the fields read from it.
pub struct UserConfig {
    pub name: Option<String>,
    pub reaction: Option<String>,
    pub reply: Option<String>,
    pub reply_percent: Option<i64>,
}

/// Name, reaction, reply and reply percentage, as plain values.
pub type UserView = (Option<Seq<char>>, Option<Seq<char>>, Option<Seq<char>>, Option<i64>);

pub open spec fn opt_view(o: Option<String>) -> Option<Seq<char>> {
    match o {
        Some(s) => Some(s@),
        None => None,
    }
}

impl UserConfig {
    pub open spec fn view(&self) -> UserView {
        (opt_view(self.name), opt_view(self.reaction), opt_view(self.reply), self.reply_percent)
    }
}

pub open spec fn users_view(us: Seq<UserConfig>) -> Seq<UserView> {
    us.map_values(|u: UserConfig| u.view())
}

/// The actions a user's fields describe: the reply's percentage defaults to 100.
pub open spec fn actions_of(u: UserView) -> ActionsView {
    (
        u.1,
        match u.2 {
            Some(m) => Some(
                (
                    m,
                    match u.3 {
                        Some(p) => p,
                        None => 100,
                    },
                ),
            ),
            None => None,
        },
    )
}

/// The key a user is stored under: the lowercase name; a user without a name is
/// kept under the empty key.
pub open spec fn key_of(u: UserView) -> Seq<char> {
    match u.0 {
        Some(n) => lower_of(n),
        None => Seq::empty(),
    }
}

pub open spec fn name_key() -> Seq<char> {
    seq!['n', 'a', 'm', 'e']
}

pub open spec fn reaction_key() -> Seq<char> {
    seq!['r', 'e', 'a', 'c', 't', 'i', 'o', 'n']
}

pub open spec fn reply_key() -> Seq<char> {
    seq!['r', 'e', 'p', 'l', 'y']
}

pub open spec fn percent_key() -> Seq<char> {
    seq!['r', 'e', 'p', 'l', 'y', '_', 'p', 'e', 'r', 'c', 'e', 'n', 't']
}

pub open spec fn users_key() -> Seq<char> {
    seq!['u', 's', 'e', 'r', 's']
}

/// The fields of one user entry.
pub open spec fn user_of(y: YamlView) -> UserView {
    (
        text_of(field(y, name_key())),
        text_of(field(y, reaction_key())),
        text_of(field(y, reply_key())),
        int_of(field(y, percent_key())),
    )
}

/// The users listed under `users` in the first document.
pub open spec fn users_of_docs(docs: Option<Seq<YamlView>>) -> Result<Seq<UserView>, ConfigError> {
    match docs {
        None => Err(ConfigError::Malformed),
        Some(d) => if d.len() == 0 {
            Err(ConfigError::MissingUsers)
        } else {
            match field(d[0], users_key()) {
                YamlView::Array(items) => Ok(items.map_values(|y: YamlView| user_of(y))),
                _ => Err(ConfigError::MissingUsers),
            }
        },
    }
}

/// The users a YAML text lists; texts nested too deeply are refused.
pub open spec fn read_spec(t: Seq<char>) -> Result<Seq<UserView>, ConfigError> {
    if !nesting_fits(t) {
        Err(ConfigError::TooDeep)
    } else {
        users_of_docs(yaml_docs_of(t))
    }
}

/// A lowercase username with its actions.
pub struct UserActions {
    pub name: String,
    pub actions: Actions,
}

pub type UserActionsView = (Seq<char>, ActionsView);

pub open spec fn put(m: Seq<UserActionsView>, name: Seq<char>, a: ActionsView) -> Seq<UserActionsView> {
    if exists|i: int| 0 <= i < m.len() && m[i].0 == name {
        m.map_values(|e: UserActionsView| put_one(e, name, a))
    } else {
        m.push((name, a))
    }
}

pub open spec fn put_one(e: UserActionsView, name: Seq<char>, a: ActionsView) -> UserActionsView {
    if e.0 == name {
        (name, a)
    } else {
        e
    }
}

/// The actions of each user, a later user of the same name replacing an earlier one.
pub open spec fn build_spec(users: Seq<UserView>) -> Seq<UserActionsView>
    decreases users.len(),
{
    if users.len() == 0 {
        Seq::empty()
    } else {
        let u = users.last();
        put(build_spec(users.drop_last()), key_of(u), actions_of(u))
    }
}

pub open spec fn lookup_actions(m: Seq<UserActionsView>, name: Seq<char>) -> Option<ActionsView> {
    if exists|i: int| 0 <= i < m.len() && m[i].0 == name {
        Some(m[choose|i: int| 0 <= i < m.len() && m[i].0 == name].1)
    } else {
        None
    }
}

/// Users by lowercase name.
pub struct ActionMap {
    pub entries: Vec<UserActions>,
}

impl ActionMap {
    pub open spec fn view(&self) -> Seq<UserActionsView> {
        self.entries@.map_values(|e: UserActions| (e.name@, e.actions.view()))
    }

    /// Each name occurs once.
    pub open spec fn wf(&self) -> bool {
        forall|i: int, j: int| 0 <= i < j < self.view().len() ==> self.view()[i].0 != self.view()[j].0
    }

    pub fn new() -> (r: ActionMap)
        ensures
            r.view() == Seq::<UserActionsView>::empty(),
            r.wf(),
    {
        let r = ActionMap { entries: Vec::new() };
        assert(r.view() =~= Seq::<UserActionsView>::empty());
        r
    }

    /// Stores `actions` under the already lowercased `name`, replacing what was there.
    pub fn insert(&mut self, name: String, actions: Actions)
        requires
            old(self).wf(),
        ensures
            final(self).view() == put(old(self).view(), name@, actions.view()),
            final(self).wf(),
    {
        let ghost m = self.view();
        let mut out: Vec<UserActions> = Vec::new();
        let mut found = false;
        let mut i: usize = 0;
        while i < self.entries.len()
            invariant
                m == self.view(),
                m.len() == self.entries@.len(),
                i <= self.entries@.len(),
                out@.len() == i,
                forall|j: int| 0 <= j < i ==> (#[trigger] out@[j]).name@ == put_one(m[j], name@, actions.view()).0
                    && out@[j].actions.view() == put_one(m[j], name@, actions.view()).1,
                found <==> exists|j: int| 0 <= j < i && m[j].0 == name@,
            decreases self.entries.len() - i,
        {
            assert(m[i as int] == (self.entries@[i as int].name@, self.entries@[i as int].actions.view()));
            if self.entries[i].name == name {
                out.push(UserActions { name: name.clone(), actions: actions.copy() });
                found = true;
            } else {
                out.push(UserActions { name: self.entries[i].name.clone(), actions: self.entries[i].actions.copy() });
            }
            i = i + 1;
        }
        if !found {
            out.push(UserActions { name, actions });
            assert(out@.map_values(|e: UserActions| (e.name@, e.actions.view())) =~= m.push((name@, actions.view())));
        } else {
            assert(out@.map_values(|e: UserActions| (e.name@, e.actions.view())) =~= m.map_values(
                |e: UserActionsView| put_one(e, name@, actions.view()),
            ));
        }
        self.entries = out;
        proof {
            let n = self.view();
            assert forall|a: int, b: int| 0 <= a < b < n.len() implies n[a].0 != n[b].0 by {
                if b < m.len() {
                    assert(n[a].0 == m[a].0);
                    assert(n[b].0 == m[b].0);
                }
            }
        }
    }

    /// The actions for `username`, compared in lowercase.
    pub fn get(&self, username: &str) -> (r: Option<&Actions>)
        requires
            self.wf(),
        ensures
            match r {
                Some(a) => lookup_actions(self.view(), lower_of(username@)) == Some(a.view()),
                None => lookup_actions(self.view(), lower_of(username@)) is None,
            },
    {
        let key = lowercase(username);
        let mut i: usize = 0;
        while i < self.entries.len()
            invariant
                i <= self.entries@.len(),
                key@ == lower_of(username@),
                self.wf(),
                forall|j: int| 0 <= j < i ==> self.view()[j].0 != key@,
            decreases self.entries.len() - i,
        {
            assert(self.view()[i as int].0 == self.entries@[i as int].name@);
            if self.entries[i].name == key {
                proof {
                    let k = choose|k: int| 0 <= k < self.view().len() && self.view()[k].0 == key@;
                    assert(k == i);
                }
                return Some(&self.entries[i].actions);
            }
            i = i + 1;
        }
        None
    }
}

/// The map that a list of users describes; a later user of the same key replaces
/// an earlier one.
pub fn build_actions(users: &Vec<UserConfig>) -> (r: ActionMap)
    ensures
        r.view() == build_spec(users_view(users@)),
        r.wf(),
{
    let ghost uv = users_view(users@);
    let mut map = ActionMap::new();
    let mut i: usize = 0;
    proof {
        assert(uv.subrange(0, 0) =~= Seq::<UserView>::empty());
    }
    while i < users.len()
        invariant
            uv == users_view(users@),
            i <= users@.len(),
            map.wf(),
            map.view() == build_spec(uv.subrange(0, i as int)),
        decreases users.len() - i,
    {
        let u = &users[i];
        let key = match &u.name {
            Some(name) => lowercase(name.as_str()),
            None => String::new(),
        };
        let reaction = match &u.reaction {
            Some(e) => Some(React { emoji: e.clone() }),
            None => None,
        };
        let reply = match &u.reply {
            Some(m) => Some(
                Reply {
                    message: m.clone(),
                    percent: match u.reply_percent {
                        Some(p) => p,
                        None => 100,
                    },
                },
            ),
            None => None,
        };
        let actions = Actions { reaction, reply };
        proof {
            assert(uv[i as int] == u.view());
            assert(uv.subrange(0, i + 1).drop_last() =~= uv.subrange(0, i as int));
            assert(actions.view() == actions_of(uv[i as int]));
            assert(key@ == key_of(uv[i as int]));
        }
        map.insert(key, actions);
        i = i + 1;
    }
    assert(uv.subrange(0, uv.len() as int) =~= uv);
    map
}

fn key_string(k: Vec<char>) -> (r: String)
    ensures
        r@ == k@,
{
    string_of(&k, 0, k.len())
}

/// Reads the fields of one user entry of the document.
fn read_user(user: &YamlValue) -> (r: UserConfig)
    ensures
        r.view() == user_of(user.view()),
{
    let name = text_field(user, &key_string(vec!['n', 'a', 'm', 'e']));
    let reaction = text_field(user, &key_string(vec!['r', 'e', 'a', 'c', 't', 'i', 'o', 'n']));
    let reply = text_field(user, &key_string(vec!['r', 'e', 'p', 'l', 'y']));
    let reply_percent = int_field(
        user,
        &key_string(vec!['r', 'e', 'p', 'l', 'y', '_', 'p', 'e', 'r', 'c', 'e', 'n', 't']),
    );
    UserConfig { name, reaction, reply, reply_percent }
}

/// The users listed under `users` in the first of the parsed documents.
pub fn users_of(docs: &Vec<YamlValue>) -> (r: Result<Vec<UserConfig>, ConfigError>)
    ensures
        match users_of_docs(Some(views_of(docs@))) {
            Ok(us) => r matches Ok(v) && users_view(v@) == us,
            Err(e) => r == Err::<Vec<UserConfig>, ConfigError>(e),
        },
{
    if docs.len() == 0 {
        return Err(ConfigError::MissingUsers);
    }
    let ghost dv = views_of(docs@);
    proof {
        assert(dv[0] == docs@[0].view());
    }
    let users_field = crate::yaml::get_field(&docs[0], &key_string(vec!['u', 's', 'e', 'r', 's']));
    let items = match users_field {
        Some(YamlValue::Array(items)) => items,
        _ => return Err(ConfigError::MissingUsers),
    };
    let ghost iv = match field(dv[0], users_key()) {
        YamlView::Array(s) => s,
        _ => Seq::empty(),
    };
    assert(iv.len() == items@.len());
    let mut users: Vec<UserConfig> = Vec::new();
    let mut i: usize = 0;
    while i < items.len()
        invariant
            i <= items@.len(),
            iv.len() == items@.len(),
            forall|j: int| 0 <= j < items@.len() ==> iv[j] == (#[trigger] items@[j]).view(),
            users_view(users@) == iv.subrange(0, i as int).map_values(|y: YamlView| user_of(y)),
        decreases items.len() - i,
    {
        let u = read_user(&items[i]);
        assert(u.view() == user_of(iv[i as int]));
        let ghost before = users_view(users@);
        users.push(u);
        assert(users_view(users@) =~= before.push(user_of(iv[i as int])));
        i = i + 1;
        assert(users_view(users@) =~= iv.subrange(0, i as int).map_values(|y: YamlView| user_of(y)));
    }
    assert(iv.subrange(0, iv.len() as int) =~= iv);
    Ok(users)
}

/// Reads the `users` list of the first document of a YAML text.
pub fn read_users(text: &str) -> (r: Result<Vec<UserConfig>, ConfigError>)
    ensures
        match read_spec(text@) {
            Ok(us) => r matches Ok(v) && users_view(v@) == us,
            Err(e) => r == Err::<Vec<UserConfig>, ConfigError>(e),
        },
{
    match load_docs(text) {
        None => Err(ConfigError::TooDeep),
        Some(None) => Err(ConfigError::Malformed),
        Some(Some(docs)) => users_of(&docs),
    }
}

/// The users' actions that a YAML text describes: exactly what `read_users` reads,
/// built into a map, or its error.
pub fn parse_actions(text: &str) -> (r: Result<ActionMap, ConfigError>)
    ensures
        match read_spec(text@) {
            Ok(us) => r matches Ok(m) && m.view() == build_spec(us) && m.wf(),
            Err(e) => r matches Err(x) && x == e,
        },
{
    match read_users(text) {
        Ok(users) => Ok(build_actions(&users)),
        Err(e) => Err(e),
    }
}

} // verus!
