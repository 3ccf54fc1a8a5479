//! The reply store: a mapping from lowercase username to reply strings, kept
//! in a flat text file with one `username|reply|reply...` record per line.

use vstd::prelude::*;
use crate::text::{
    all_free_of, free_of, join_seq, lemma_join_free, lemma_split_concat, lemma_split_free,
    lemma_split_join, lemma_split_len, chars_of, push_char, split_on, split_seq,
};
use vstd::string::{StrSliceExecFns, StringExecFns};

verus! {

broadcast use vstd::std_specs::vec::vec_clone_deep_view_proof;

/// Field separator inside a record.
pub const FIELD_SEP: char = '|';

/// Record terminator.
pub const LINE_END: char = '\n';

/// A username with its replies, as plain sequences.
pub type EntryView = (Seq<char>, Seq<Seq<char>>);

pub uninterp spec fn lower_of(s: Seq<char>) -> Seq<char>;

/// Relies on str::to_lowercase: the lowercase form depends on the characters alone.
#[verifier::external_body]
pub(crate) fn lowercase(s: &str) -> (r: String)
    ensures
        r@ == lower_of(s@),
{
    s.to_lowercase()
}

pub open spec fn has_key(m: Seq<EntryView>, key: Seq<char>) -> bool {
    exists|i: int| 0 <= i < m.len() && m[i].0 == key
}

pub open spec fn keys_unique(m: Seq<EntryView>) -> bool {
    forall|i: int, j: int| 0 <= i < j < m.len() ==> m[i].0 != m[j].0
}

/// The replies stored under `key`, if any.
pub open spec fn lookup(m: Seq<EntryView>, key: Seq<char>) -> Option<Seq<Seq<char>>> {
    if has_key(m, key) {
        Some(m[choose|i: int| 0 <= i < m.len() && m[i].0 == key].1)
    } else {
        None
    }
}

pub open spec fn replaced(e: EntryView, key: Seq<char>, replies: Seq<Seq<char>>) -> EntryView {
    if e.0 == key {
        (key, replies)
    } else {
        e
    }
}

pub open spec fn appended(e: EntryView, key: Seq<char>, replies: Seq<Seq<char>>) -> EntryView {
    if e.0 == key {
        (key, e.1 + replies)
    } else {
        e
    }
}

/// `key` now holds exactly `replies`; a new key goes at the end.
pub open spec fn set_entry(m: Seq<EntryView>, key: Seq<char>, replies: Seq<Seq<char>>) -> Seq<
    EntryView,
> {
    if has_key(m, key) {
        m.map_values(|e: EntryView| replaced(e, key, replies))
    } else {
        m.push((key, replies))
    }
}

/// `replies` are appended to those of `key`; a new key goes at the end.
pub open spec fn add_entry(m: Seq<EntryView>, key: Seq<char>, replies: Seq<Seq<char>>) -> Seq<
    EntryView,
> {
    if has_key(m, key) {
        m.map_values(|e: EntryView| appended(e, key, replies))
    } else {
        m.push((key, replies))
    }
}

/// Every entry but that of `key`, in order.
pub open spec fn remove_entry(m: Seq<EntryView>, key: Seq<char>) -> Seq<EntryView> {
    m.filter(|e: EntryView| e.0 != key)
}

/// The records of a text: its lines, without the empty piece after a final newline.
pub open spec fn lines_of(t: Seq<char>) -> Seq<Seq<char>> {
    let p = split_seq(t, LINE_END);
    if p.last().len() == 0 {
        p.drop_last()
    } else {
        p
    }
}

/// A line read as a record: the first field is the key, the rest are replies.
pub open spec fn record_of(line: Seq<char>) -> EntryView {
    let f = split_seq(line, FIELD_SEP);
    (f[0], f.drop_first())
}

pub open spec fn load_lines(lines: Seq<Seq<char>>) -> Seq<EntryView>
    decreases lines.len(),
{
    if lines.len() == 0 {
        Seq::empty()
    } else {
        let r = record_of(lines.last());
        set_entry(load_lines(lines.drop_last()), r.0, r.1)
    }
}

/// The store that a file's text describes; a later record for a key replaces an earlier one.
pub open spec fn load_text(t: Seq<char>) -> Seq<EntryView> {
    load_lines(lines_of(t))
}

/// One record as written: the key, then `|` and a reply for each reply.
pub open spec fn line_of(e: EntryView) -> Seq<char> {
    join_seq(seq![e.0] + e.1, FIELD_SEP)
}

/// The file's text for a store: each record followed by a newline.
pub open spec fn save_text(m: Seq<EntryView>) -> Seq<char> {
    if m.len() == 0 {
        Seq::empty()
    } else {
        join_seq(m.map_values(|e: EntryView| line_of(e)), LINE_END).push(LINE_END)
    }
}

/// An entry that can be written and read back: no separator inside a field.
pub open spec fn entry_clean(e: EntryView) -> bool {
    &&& free_of(e.0, FIELD_SEP)
    &&& free_of(e.0, LINE_END)
    &&& all_free_of(e.1, FIELD_SEP)
    &&& all_free_of(e.1, LINE_END)
}

pub open spec fn store_clean(m: Seq<EntryView>) -> bool {
    &&& keys_unique(m)
    &&& forall|i: int| 0 <= i < m.len() ==> entry_clean(#[trigger] m[i])
}

proof fn lemma_filter_origin(m: Seq<EntryView>, key: Seq<char>, a: int) -> (k: int)
    requires
        0 <= a < remove_entry(m, key).len(),
    ensures
        0 <= k < m.len(),
        m[k] == remove_entry(m, key)[a],
    decreases m.len(),
{
    reveal(Seq::filter);
    let init = m.drop_last();
    let fi = remove_entry(init, key);
    if m.last().0 != key && a == fi.len() {
        m.len() - 1
    } else {
        lemma_filter_origin(init, key, a)
    }
}

proof fn lemma_filter_keeps_unique(m: Seq<EntryView>, key: Seq<char>, a: int, b: int)
    requires
        keys_unique(m),
        0 <= a < b < remove_entry(m, key).len(),
    ensures
        remove_entry(m, key)[a].0 != remove_entry(m, key)[b].0,
    decreases m.len(),
{
    reveal(Seq::filter);
    let init = m.drop_last();
    assert(keys_unique(init));
    let fi = remove_entry(init, key);
    if m.last().0 != key && b == fi.len() {
        let k = lemma_filter_origin(init, key, a);
        assert(m[k] == init[k]);
    } else {
        lemma_filter_keeps_unique(init, key, a, b);
    }
}

/// Setting a key keeps the keys unique.
pub proof fn lemma_set_keys_unique(m: Seq<EntryView>, key: Seq<char>, replies: Seq<Seq<char>>)
    requires
        keys_unique(m),
    ensures
        keys_unique(set_entry(m, key, replies)),
{
    let n = set_entry(m, key, replies);
    assert forall|a: int, b: int| 0 <= a < b < n.len() implies n[a].0 != n[b].0 by {
        if b < m.len() {
            assert(n[a].0 == m[a].0);
            assert(n[b].0 == m[b].0);
        }
    }
}

/// Appending to a key keeps the keys unique.
pub proof fn lemma_add_keys_unique(m: Seq<EntryView>, key: Seq<char>, replies: Seq<Seq<char>>)
    requires
        keys_unique(m),
    ensures
        keys_unique(add_entry(m, key, replies)),
{
    let n = add_entry(m, key, replies);
    assert forall|a: int, b: int| 0 <= a < b < n.len() implies n[a].0 != n[b].0 by {
        if b < m.len() {
            assert(n[a].0 == m[a].0);
            assert(n[b].0 == m[b].0);
        }
    }
}

/// A record read from a line holds no separator in any field.
pub proof fn lemma_record_clean(line: Seq<char>)
    requires
        free_of(line, LINE_END),
    ensures
        entry_clean(record_of(line)),
{
    let f = split_seq(line, FIELD_SEP);
    lemma_split_len(line, FIELD_SEP);
    lemma_split_free(line, FIELD_SEP, LINE_END);
    assert(free_of(f[0], FIELD_SEP));
    assert(free_of(f[0], LINE_END));
    let r = f.drop_first();
    assert forall|i: int| 0 <= i < r.len() implies free_of(#[trigger] r[i], FIELD_SEP) && free_of(
        r[i],
        LINE_END,
    ) by {
        assert(r[i] == f[i + 1]);
    }
}

/// Whatever is loaded from lines without newlines can be written back.
pub proof fn lemma_load_lines_clean(lines: Seq<Seq<char>>)
    requires
        all_free_of(lines, LINE_END),
    ensures
        store_clean(load_lines(lines)),
    decreases lines.len(),
{
    if lines.len() > 0 {
        let init = lines.drop_last();
        assert forall|i: int| 0 <= i < init.len() implies free_of(#[trigger] init[i], LINE_END) by {
            assert(init[i] == lines[i]);
        }
        lemma_load_lines_clean(init);
        let m = load_lines(init);
        assert(free_of(lines[lines.len() - 1], LINE_END));
        lemma_record_clean(lines.last());
        let r = record_of(lines.last());
        lemma_set_keys_unique(m, r.0, r.1);
        let n = set_entry(m, r.0, r.1);
        assert forall|i: int| 0 <= i < n.len() implies entry_clean(#[trigger] n[i]) by {
            if i < m.len() {
                assert(entry_clean(m[i]));
            }
        }
    }
}

/// Whatever a text loads to can be written back.
pub proof fn lemma_load_clean(t: Seq<char>)
    ensures
        store_clean(load_text(t)),
{
    let p = split_seq(t, LINE_END);
    lemma_split_len(t, LINE_END);
    lemma_split_free(t, LINE_END, LINE_END);
    let l = lines_of(t);
    assert forall|i: int| 0 <= i < l.len() implies free_of(#[trigger] l[i], LINE_END) by {
        assert(l[i] == p[i]);
    }
    lemma_load_lines_clean(l);
}

/// A written record reads back as the same entry.
pub proof fn lemma_record_line(e: EntryView)
    requires
        entry_clean(e),
    ensures
        record_of(line_of(e)) == e,
        free_of(line_of(e), LINE_END),
{
    let parts = seq![e.0] + e.1;
    assert forall|i: int| 0 <= i < parts.len() implies free_of(#[trigger] parts[i], FIELD_SEP)
        && free_of(parts[i], LINE_END) by {
        if i > 0 {
            assert(parts[i] == e.1[i - 1]);
        }
    }
    lemma_split_join(parts, FIELD_SEP);
    lemma_join_free(parts, FIELD_SEP, LINE_END);
    assert(parts.drop_first() =~= e.1);
}

proof fn lemma_load_lines_of_store(m: Seq<EntryView>)
    requires
        store_clean(m),
    ensures
        load_lines(m.map_values(|e: EntryView| line_of(e))) == m,
    decreases m.len(),
{
    let l = m.map_values(|e: EntryView| line_of(e));
    if m.len() == 0 {
        assert(m =~= Seq::<EntryView>::empty());
    } else {
        let init = m.drop_last();
        assert(store_clean(init)) by {
            assert forall|i: int| 0 <= i < init.len() implies entry_clean(#[trigger] init[i]) by {
                assert(init[i] == m[i]);
            }
        }
        lemma_load_lines_of_store(init);
        assert(l.drop_last() =~= init.map_values(|e: EntryView| line_of(e)));
        assert(entry_clean(m[m.len() - 1]));
        lemma_record_line(m.last());
        assert(!has_key(init, m.last().0)) by {
            if has_key(init, m.last().0) {
                let k = choose|k: int| 0 <= k < init.len() && init[k].0 == m.last().0;
                assert(m[k].0 == m[m.len() - 1].0);
            }
        }
        assert(init.push(m.last()) =~= m);
    }
}

/// Writing a store and reading it back gives the same store.
pub proof fn lemma_save_load(m: Seq<EntryView>)
    requires
        store_clean(m),
    ensures
        load_text(save_text(m)) == m,
{
    let l = m.map_values(|e: EntryView| line_of(e));
    assert forall|i: int| 0 <= i < l.len() implies free_of(#[trigger] l[i], LINE_END) by {
        assert(entry_clean(m[i]));
        lemma_record_line(m[i]);
    }
    if m.len() == 0 {
        assert(save_text(m) =~= Seq::<char>::empty());
        assert(l =~= Seq::<Seq<char>>::empty());
        assert(split_seq(save_text(m), LINE_END) =~= seq![Seq::<char>::empty()]);
        assert(lines_of(save_text(m)) =~= l);
    } else {
        let j = join_seq(l, LINE_END);
        lemma_split_concat(j, Seq::<char>::empty(), LINE_END);
        assert(j.push(LINE_END) + Seq::<char>::empty() =~= j.push(LINE_END));
        lemma_split_join(l, LINE_END);
        assert(split_seq(Seq::<char>::empty(), LINE_END) == seq![Seq::<char>::empty()]);
        assert((l + seq![Seq::<char>::empty()]).drop_last() =~= l);
        assert(lines_of(save_text(m)) == l);
    }
    lemma_load_lines_of_store(m);
}

/// Loading what was saved from a loaded text changes nothing, and saving it again
/// writes the same text.
pub proof fn lemma_reload_stable(t: Seq<char>)
    ensures
        load_text(save_text(load_text(t))) == load_text(t),
        save_text(load_text(save_text(load_text(t)))) == save_text(load_text(t)),
{
    lemma_load_clean(t);
    lemma_save_load(load_text(t));
}

/// With unique keys, the entry at a position holding the key is the one looked up.
pub proof fn lemma_lookup_at(m: Seq<EntryView>, key: Seq<char>, i: int)
    requires
        keys_unique(m),
        0 <= i < m.len(),
        m[i].0 == key,
    ensures
        lookup(m, key) == Some(m[i].1),
{
    let k = choose|k: int| 0 <= k < m.len() && m[k].0 == key;
    assert(k == i);
}

proof fn lemma_save_push(m: Seq<EntryView>, e: EntryView)
    ensures
        save_text(m.push(e)) == save_text(m) + line_of(e).push(LINE_END),
{
    let l = m.map_values(|x: EntryView| line_of(x));
    let l2 = m.push(e).map_values(|x: EntryView| line_of(x));
    if m.len() == 0 {
        assert(l2 =~= seq![line_of(e)]);
        assert(save_text(m) =~= Seq::<char>::empty());
        assert(Seq::<char>::empty() + line_of(e).push(LINE_END) =~= line_of(e).push(LINE_END));
    } else {
        assert(l2.drop_last() =~= l);
        assert(l2.last() == line_of(e));
        assert((join_seq(l, LINE_END).push(LINE_END) + line_of(e)).push(LINE_END) =~= join_seq(
            l,
            LINE_END,
        ).push(LINE_END) + line_of(e).push(LINE_END));
    }
}

proof fn lemma_line_push(k: Seq<char>, r: Seq<Seq<char>>, j: int)
    requires
        0 <= j < r.len(),
    ensures
        line_of((k, r.subrange(0, j + 1))) == line_of((k, r.subrange(0, j))).push(FIELD_SEP) + r[j],
{
    let p = seq![k] + r.subrange(0, j + 1);
    assert(p.drop_last() =~= seq![k] + r.subrange(0, j));
    assert(p.last() == r[j]);
}

/// Usernames that lowercase alike reach the same entry: after storing replies
/// under one spelling, looking up any other spelling finds them.
pub proof fn lemma_lookup_case_insensitive(
    m: Seq<EntryView>,
    stored_as: Seq<char>,
    asked_as: Seq<char>,
    replies: Seq<Seq<char>>,
)
    requires
        keys_unique(m),
        lower_of(stored_as) == lower_of(asked_as),
    ensures
        lookup(set_entry(m, lower_of(stored_as), replies), lower_of(asked_as)) == Some(replies),
{
    let key = lower_of(stored_as);
    let n = set_entry(m, key, replies);
    lemma_set_keys_unique(m, key, replies);
    if has_key(m, key) {
        let i = choose|i: int| 0 <= i < m.len() && m[i].0 == key;
        lemma_lookup_at(n, key, i);
    } else {
        lemma_lookup_at(n, key, m.len() as int);
    }
}

/// Adding replies in two steps gives the same store as adding them all at once.
pub proof fn lemma_add_accumulates(
    m: Seq<EntryView>,
    key: Seq<char>,
    first: Seq<Seq<char>>,
    second: Seq<Seq<char>>,
)
    ensures
        add_entry(add_entry(m, key, first), key, second) == add_entry(m, key, first + second),
{
    let once = add_entry(m, key, first);
    let both = add_entry(m, key, first + second);
    if has_key(m, key) {
        let i = choose|i: int| 0 <= i < m.len() && m[i].0 == key;
        assert(once[i].0 == key);
        assert forall|j: int| 0 <= j < m.len() implies #[trigger] add_entry(once, key, second)[j]
            == both[j] by {
            if m[j].0 == key {
                assert(m[j].1 + first + second == m[j].1 + (first + second));
            }
        }
        assert(add_entry(once, key, second) =~= both);
    } else {
        assert(once[m.len() as int].0 == key);
        assert forall|j: int| 0 <= j < once.len() implies #[trigger] add_entry(once, key, second)[j]
            == both[j] by {
            if j < m.len() {
                assert(m[j].0 != key);
            }
        }
        assert(add_entry(once, key, second) =~= both);
    }
}

/// After a removal the key is gone; removing an absent key changes nothing.
pub proof fn lemma_remove_absent(m: Seq<EntryView>, key: Seq<char>)
    ensures
        lookup(remove_entry(m, key), key) is None,
        !has_key(m, key) ==> remove_entry(m, key) == m,
{
    let r = remove_entry(m, key);
    if has_key(r, key) {
        let a = choose|a: int| 0 <= a < r.len() && r[a].0 == key;
        lemma_filter_keeps_key_out(m, key, a);
    }
    if !has_key(m, key) {
        lemma_filter_all_kept(m, key);
    }
}

proof fn lemma_filter_keeps_key_out(m: Seq<EntryView>, key: Seq<char>, a: int)
    requires
        0 <= a < remove_entry(m, key).len(),
    ensures
        remove_entry(m, key)[a].0 != key,
    decreases m.len(),
{
    reveal(Seq::filter);
    let init = m.drop_last();
    let fi = remove_entry(init, key);
    if !(m.last().0 != key && a == fi.len()) {
        lemma_filter_keeps_key_out(init, key, a);
    }
}

proof fn lemma_filter_all_kept(m: Seq<EntryView>, key: Seq<char>)
    requires
        !has_key(m, key),
    ensures
        remove_entry(m, key) == m,
    decreases m.len(),
{
    reveal(Seq::filter);
    if m.len() > 0 {
        let init = m.drop_last();
        assert(!has_key(init, key)) by {
            if has_key(init, key) {
                let k = choose|k: int| 0 <= k < init.len() && init[k].0 == key;
                assert(m[k] == init[k]);
            }
        }
        lemma_filter_all_kept(init, key);
        assert(m[m.len() - 1].0 != key);
        assert(init.push(m.last()) =~= m);
    }
}

/// Setting clean replies under a clean key keeps a clean store clean.
pub proof fn lemma_set_clean(m: Seq<EntryView>, key: Seq<char>, replies: Seq<Seq<char>>)
    requires
        store_clean(m),
        entry_clean((key, replies)),
    ensures
        store_clean(set_entry(m, key, replies)),
{
    lemma_set_keys_unique(m, key, replies);
    let n = set_entry(m, key, replies);
    assert forall|i: int| 0 <= i < n.len() implies entry_clean(#[trigger] n[i]) by {
        if i < m.len() {
            assert(entry_clean(m[i]));
        }
    }
}

/// Appending clean replies under a clean key keeps a clean store clean.
pub proof fn lemma_add_clean(m: Seq<EntryView>, key: Seq<char>, replies: Seq<Seq<char>>)
    requires
        store_clean(m),
        entry_clean((key, replies)),
    ensures
        store_clean(add_entry(m, key, replies)),
{
    lemma_add_keys_unique(m, key, replies);
    let n = add_entry(m, key, replies);
    assert forall|i: int| 0 <= i < n.len() implies entry_clean(#[trigger] n[i]) by {
        if i < m.len() {
            assert(entry_clean(m[i]));
            if m[i].0 == key {
                let all = m[i].1 + replies;
                assert forall|j: int| 0 <= j < all.len() implies free_of(#[trigger] all[j], FIELD_SEP)
                    && free_of(all[j], LINE_END) by {
                    if j < m[i].1.len() {
                        assert(free_of(m[i].1[j], FIELD_SEP));
                        assert(free_of(m[i].1[j], LINE_END));
                    } else {
                        assert(all[j] == replies[j - m[i].1.len()]);
                    }
                }
            }
        }
    }
}

/// Removing a key keeps a clean store clean.
pub proof fn lemma_remove_clean(m: Seq<EntryView>, key: Seq<char>)
    requires
        store_clean(m),
    ensures
        store_clean(remove_entry(m, key)),
{
    let r = remove_entry(m, key);
    assert forall|a: int, b: int| 0 <= a < b < r.len() implies r[a].0 != r[b].0 by {
        lemma_filter_keeps_unique(m, key, a, b);
    }
    assert forall|a: int| 0 <= a < r.len() implies entry_clean(#[trigger] r[a]) by {
        let k = lemma_filter_origin(m, key, a);
        assert(entry_clean(m[k]));
    }
}

/// A removed username is absent from the file written afterwards, once read back.
pub proof fn lemma_remove_then_reload(t: Seq<char>, key: Seq<char>)
    ensures
        lookup(load_text(save_text(remove_entry(load_text(t), key))), key) is None,
{
    let m = load_text(t);
    lemma_load_clean(t);
    let r = remove_entry(m, key);
    lemma_remove_clean(m, key);
    lemma_save_load(r);
    lemma_remove_absent(m, key);
}

/// Whether `s` lacks the character `c`.
pub fn lacks(s: &String, c: char) -> (r: bool)
    ensures
        r == free_of(s@, c),
{
    let cs = chars_of(s.as_str());
    let mut i: usize = 0;
    while i < cs.len()
        invariant
            cs@ == s@,
            i <= cs@.len(),
            forall|j: int| 0 <= j < i ==> cs@[j] != c,
        decreases cs.len() - i,
    {
        if cs[i] == c {
            return false;
        }
        i = i + 1;
    }
    true
}

/// One username and its replies.
pub struct Entry {
    pub username: String,
    pub replies: Vec<String>,
}

impl Entry {
    pub open spec fn view(&self) -> EntryView {
        (self.username@, self.replies.deep_view())
    }

    pub fn copy(&self) -> (r: Entry)
        ensures
            r.view() == self.view(),
    {
        Entry { username: self.username.clone(), replies: self.replies.clone() }
    }
}

/// The in-memory form of the backing file.
pub struct ReplyStore {
    pub entries: Vec<Entry>,
}

pub open spec fn entries_view(v: Seq<Entry>) -> Seq<EntryView> {
    v.map_values(|e: Entry| e.view())
}

impl ReplyStore {
    pub open spec fn view(&self) -> Seq<EntryView> {
        entries_view(self.entries@)
    }

    /// Each username occurs once.
    pub open spec fn wf(&self) -> bool {
        keys_unique(self.view())
    }

    pub fn new() -> (r: ReplyStore)
        ensures
            r.view() == Seq::<EntryView>::empty(),
            r.wf(),
    {
        let r = ReplyStore { entries: Vec::new() };
        assert(r.view() =~= Seq::<EntryView>::empty());
        r
    }

    /// Reads a store from the backing file's text. A blank or malformed line still
    /// yields an entry; a later line for a key replaces an earlier one.
    pub fn load(text: &str) -> (r: ReplyStore)
        ensures
            r.view() == load_text(text@),
            r.wf(),
    {
        let pieces = split_on(text, LINE_END);
        proof {
            lemma_split_len(text@, LINE_END);
        }
        let n = pieces.len();
        let count = if pieces[n - 1].as_str().unicode_len() == 0 {
            n - 1
        } else {
            n
        };
        let ghost lines = lines_of(text@);
        proof {
            assert(pieces.deep_view()[n - 1] == pieces@[n - 1]@);
            assert(lines =~= pieces.deep_view().subrange(0, count as int));
            assert(lines.subrange(0, 0) =~= Seq::<Seq<char>>::empty());
        }
        let mut store = ReplyStore::new();
        let mut i: usize = 0;
        while i < count
            invariant
                count <= pieces@.len(),
                lines == pieces.deep_view().subrange(0, count as int),
                i <= count,
                store.view() == load_lines(lines.subrange(0, i as int)),
                store.wf(),
            decreases count - i,
        {
            let fields = split_on(pieces[i].as_str(), FIELD_SEP);
            proof {
                lemma_split_len(pieces@[i as int]@, FIELD_SEP);
            }
            let key = fields[0].clone();
            let mut replies: Vec<String> = Vec::new();
            let mut k: usize = 1;
            while k < fields.len()
                invariant
                    1 <= k <= fields@.len(),
                    replies.deep_view() == fields.deep_view().subrange(1, k as int),
                decreases fields.len() - k,
            {
                let f = fields[k].clone();
                let ghost before = replies.deep_view();
                replies.push(f);
                assert(replies.deep_view() =~= before.push(f@));
                k = k + 1;
                assert(replies.deep_view() =~= fields.deep_view().subrange(1, k as int));
            }
            proof {
                assert(lines[i as int] == pieces@[i as int]@);
                assert(record_of(lines[i as int]) == (key@, replies.deep_view())) by {
                    assert(fields.deep_view().drop_first() =~= fields.deep_view().subrange(
                        1,
                        fields@.len() as int,
                    ));
                }
                assert(lines.subrange(0, i + 1).drop_last() =~= lines.subrange(0, i as int));
            }
            store.set_key(key, replies);
            i = i + 1;
        }
        assert(lines.subrange(0, count as int) =~= lines);
        store
    }

    /// The backing file's text for this store: one `username|reply|...` line per entry.
    pub fn save(&self) -> (r: String)
        ensures
            r@ == save_text(self.view()),
    {
        let ghost m = self.view();
        let mut out = String::new();
        let mut i: usize = 0;
        proof {
            assert(m.subrange(0, 0) =~= Seq::<EntryView>::empty());
        }
        while i < self.entries.len()
            invariant
                m == self.view(),
                m.len() == self.entries@.len(),
                i <= self.entries@.len(),
                out@ == save_text(m.subrange(0, i as int)),
            decreases self.entries.len() - i,
        {
            let e = &self.entries[i];
            let ghost start = out@;
            assert(m[i as int] == e.view());
            out.append(e.username.as_str());
            let mut j: usize = 0;
            proof {
                assert(join_seq(seq![e.username@] + e.replies.deep_view().subrange(0, 0), FIELD_SEP)
                    == e.username@) by {
                    assert(seq![e.username@] + e.replies.deep_view().subrange(0, 0) =~= seq![
                        e.username@,
                    ]);
                }
            }
            while j < e.replies.len()
                invariant
                    j <= e.replies@.len(),
                    out@ == start + line_of((e.username@, e.replies.deep_view().subrange(0, j as int))),
                decreases e.replies.len() - j,
            {
                push_char(&mut out, FIELD_SEP);
                out.append(e.replies[j].as_str());
                proof {
                    lemma_line_push(e.username@, e.replies.deep_view(), j as int);
                    assert(e.replies.deep_view()[j as int] == e.replies@[j as int]@);
                }
                j = j + 1;
            }
            push_char(&mut out, LINE_END);
            proof {
                assert(e.replies.deep_view().subrange(0, j as int) =~= e.replies.deep_view());
                lemma_save_push(m.subrange(0, i as int), m[i as int]);
                assert(m.subrange(0, i as int).push(m[i as int]) =~= m.subrange(0, i + 1));
            }
            i = i + 1;
        }
        assert(m.subrange(0, m.len() as int) =~= m);
        out
    }

    /// The replies stored for `username`, compared in lowercase.
    pub fn get(&self, username: &str) -> (r: Option<Vec<String>>)
        requires
            self.wf(),
        ensures
            r matches Some(v) ==> lookup(self.view(), lower_of(username@)) == Some(v.deep_view()),
            r is None ==> lookup(self.view(), lower_of(username@)) is None,
    {
        let key = lowercase(username);
        match self.find(&key) {
            Some(i) => {
                proof {
                    lemma_lookup_at(self.view(), key@, i as int);
                }
                Some(self.entries[i].replies.clone())
            },
            None => None,
        }
    }

    /// Replaces the replies of `username` (lowercased), creating the entry if needed.
    pub fn upsert_set(&mut self, username: &str, replies: Vec<String>)
        requires
            old(self).wf(),
        ensures
            final(self).view() == set_entry(old(self).view(), lower_of(username@), replies.deep_view()),
            final(self).wf(),
    {
        let key = lowercase(username);
        self.set_key(key, replies);
    }

    /// Appends `replies` to those of `username` (lowercased), creating the entry if needed.
    pub fn upsert_add(&mut self, username: &str, replies: Vec<String>)
        requires
            old(self).wf(),
        ensures
            final(self).view() == add_entry(old(self).view(), lower_of(username@), replies.deep_view()),
            final(self).wf(),
    {
        let key = lowercase(username);
        self.add_key(key, replies);
    }

    /// Drops the entry of `username` (lowercased); nothing happens if there is none.
    pub fn remove(&mut self, username: &str)
        requires
            old(self).wf(),
        ensures
            final(self).view() == remove_entry(old(self).view(), lower_of(username@)),
            final(self).wf(),
    {
        let key = lowercase(username);
        self.remove_key(&key);
    }

    /// Whether `key` and `replies` can be written and read back unchanged.
    pub fn is_clean(key: &String, replies: &Vec<String>) -> (r: bool)
        ensures
            r == entry_clean((key@, replies.deep_view())),
    {
        if !lacks(key, FIELD_SEP) || !lacks(key, LINE_END) {
            return false;
        }
        let mut i: usize = 0;
        while i < replies.len()
            invariant
                i <= replies@.len(),
                forall|j: int| 0 <= j < i ==> free_of(#[trigger] replies.deep_view()[j], FIELD_SEP)
                    && free_of(replies.deep_view()[j], LINE_END),
            decreases replies.len() - i,
        {
            assert(replies.deep_view()[i as int] == replies@[i as int]@);
            if !lacks(&replies[i], FIELD_SEP) || !lacks(&replies[i], LINE_END) {
                return false;
            }
            i = i + 1;
        }
        true
    }

    /// The position of the entry for `key`, if there is one.
    pub fn find(&self, key: &String) -> (r: Option<usize>)
        ensures
            r is None <==> !has_key(self.view(), key@),
            r matches Some(i) ==> i < self.entries@.len() && self.view()[i as int].0 == key@,
    {
        let mut i: usize = 0;
        while i < self.entries.len()
            invariant
                i <= self.entries@.len(),
                forall|j: int| 0 <= j < i ==> self.view()[j].0 != key@,
            decreases self.entries.len() - i,
        {
            assert(self.view()[i as int] == self.entries@[i as int].view());
            if self.entries[i].username == *key {
                return Some(i);
            }
            i = i + 1;
        }
        None
    }

    /// Replaces the replies stored under the already lowercased `key`.
    pub fn set_key(&mut self, key: String, replies: Vec<String>)
        requires
            old(self).wf(),
        ensures
            final(self).view() == set_entry(old(self).view(), key@, replies.deep_view()),
            final(self).wf(),
    {
        let ghost m = self.view();
        let mut out: Vec<Entry> = Vec::new();
        let mut found = false;
        let mut i: usize = 0;
        while i < self.entries.len()
            invariant
                m == self.view(),
                m.len() == self.entries@.len(),
                i <= self.entries@.len(),
                out@.len() == i,
                forall|j: int| 0 <= j < i ==> (#[trigger] out@[j]).view() == replaced(m[j], key@, replies.deep_view()),
                found <==> exists|j: int| 0 <= j < i && m[j].0 == key@,
            decreases self.entries.len() - i,
        {
            assert(m[i as int] == self.entries@[i as int].view());
            if self.entries[i].username == key {
                let e = Entry { username: key.clone(), replies: replies.clone() };
                assert(e.replies.deep_view() == replies.deep_view());
                assert(e.view() == replaced(m[i as int], key@, replies.deep_view()));
                out.push(e);
                found = true;
            } else {
                let e = self.entries[i].copy();
                assert(e.view() == replaced(m[i as int], key@, replies.deep_view()));
                out.push(e);
            }
            assert(out@[i as int].view() == replaced(m[i as int], key@, replies.deep_view()));
            i = i + 1;
        }
        if !found {
            out.push(Entry { username: key, replies });
            assert(entries_view(out@) =~= m.push((key@, replies.deep_view())));
        } else {
            assert(entries_view(out@) =~= m.map_values(|e: EntryView| replaced(e, key@, replies.deep_view())));
        }
        self.entries = out;
        proof {
            lemma_set_keys_unique(m, key@, replies.deep_view());
        }
    }

    /// Appends `replies` to those stored under the already lowercased `key`.
    pub fn add_key(&mut self, key: String, replies: Vec<String>)
        requires
            old(self).wf(),
        ensures
            final(self).view() == add_entry(old(self).view(), key@, replies.deep_view()),
            final(self).wf(),
    {
        let ghost m = self.view();
        let mut out: Vec<Entry> = Vec::new();
        let mut found = false;
        let mut i: usize = 0;
        while i < self.entries.len()
            invariant
                m == self.view(),
                m.len() == self.entries@.len(),
                i <= self.entries@.len(),
                out@.len() == i,
                forall|j: int| 0 <= j < i ==> (#[trigger] out@[j]).view() == appended(m[j], key@, replies.deep_view()),
                found <==> exists|j: int| 0 <= j < i && m[j].0 == key@,
            decreases self.entries.len() - i,
        {
            assert(m[i as int] == self.entries@[i as int].view());
            if self.entries[i].username == key {
                let mut all = self.entries[i].replies.clone();
                let mut k: usize = 0;
                while k < replies.len()
                    invariant
                        m == self.view(),
                        m.len() == self.entries@.len(),
                        i < self.entries@.len(),
                        k <= replies@.len(),
                        all.deep_view() == m[i as int].1 + replies.deep_view().subrange(0, k as int),
                    decreases replies.len() - k,
                {
                    let r = replies[k].clone();
                    assert(r@ == replies.deep_view()[k as int]);
                    let ghost before = all.deep_view();
                    all.push(r);
                    assert(all.deep_view() =~= before.push(r@));
                    k = k + 1;
                    assert(all.deep_view() =~= m[i as int].1 + replies.deep_view().subrange(0, k as int));
                }
                assert(replies.deep_view().subrange(0, k as int) =~= replies.deep_view());
                let e = Entry { username: key.clone(), replies: all };
                assert(e.view() == appended(m[i as int], key@, replies.deep_view()));
                out.push(e);
                found = true;
            } else {
                let e = self.entries[i].copy();
                assert(e.view() == appended(m[i as int], key@, replies.deep_view()));
                out.push(e);
            }
            assert(out@[i as int].view() == appended(m[i as int], key@, replies.deep_view()));
            i = i + 1;
        }
        if !found {
            out.push(Entry { username: key, replies });
            assert(entries_view(out@) =~= m.push((key@, replies.deep_view())));
        } else {
            assert(entries_view(out@) =~= m.map_values(|e: EntryView| appended(e, key@, replies.deep_view())));
        }
        self.entries = out;
        proof {
            lemma_add_keys_unique(m, key@, replies.deep_view());
        }
    }

    /// Drops the entry for the already lowercased `key`, if there is one.
    pub fn remove_key(&mut self, key: &String)
        requires
            old(self).wf(),
        ensures
            final(self).view() == remove_entry(old(self).view(), key@),
            final(self).wf(),
    {
        let ghost m = self.view();
        let mut out: Vec<Entry> = Vec::new();
        let mut i: usize = 0;
        proof {
            reveal(Seq::filter);
            assert(remove_entry(m.subrange(0, 0), key@) =~= Seq::<EntryView>::empty());
            assert(entries_view(out@) =~= Seq::<EntryView>::empty());
        }
        while i < self.entries.len()
            invariant
                m == self.view(),
                m.len() == self.entries@.len(),
                i <= self.entries@.len(),
                entries_view(out@) == remove_entry(m.subrange(0, i as int), key@),
            decreases self.entries.len() - i,
        {
            proof {
                reveal(Seq::filter);
                assert(m.subrange(0, i + 1).drop_last() =~= m.subrange(0, i as int));
            }
            assert(m[i as int] == self.entries@[i as int].view());
            if !(self.entries[i].username == *key) {
                let e = self.entries[i].copy();
                out.push(e);
                assert(entries_view(out@) =~= remove_entry(m.subrange(0, i as int), key@).push(m[i as int]));
            }
            i = i + 1;
        }
        assert(m.subrange(0, m.len() as int) =~= m);
        self.entries = out;
        proof {
            let n = self.view();
            assert(n == remove_entry(m, key@));
            assert forall|a: int, b: int| 0 <= a < b < n.len() implies n[a].0 != n[b].0 by {
                lemma_filter_keeps_unique(m, key@, a, b);
            }
        }
    }
}

} // verus!
